//! Files of native code: one function for each reference, and a program to fall back on.

use vstd::prelude::*;

use crate::analysis::{analyze_function, analyzed};
use crate::ast::{same_name, Expr, Name, Parameter, Program, Stmt, StmtKind};
use crate::chars::{cat, cat3, cat5, dec, decimal, law_text_order, same, text_lt, text_rank, Rank};
use crate::emit::{
    bakes, debug_of, debug_text, emitted, idents, join, joined, show_ok, shows, signatures, texts,
    Bake, Baked, Emitted, Emitter, Known,
};
use crate::machine::{named_vals, names_of};
use crate::names::name_set;
use crate::num::{finite, is_finite, is_nan, nan, INF};
use crate::value::{lemma_list_view, vals, Val, Value};

verus! {

/// Whether a parameter before the `i`-th has its name.
pub open spec fn repeats(params: Seq<Parameter>, i: int) -> bool {
    exists|j: int| 0 <= j < i && (#[trigger] params[j]).name@ == params[i].name@
}

/// The text that takes the `i`-th argument.
pub open spec fn getter_text(i: int) -> Seq<char> {
    if i == 0 {
        "args.first()"@
    } else {
        "args.get("@ + decimal(i as nat) + ")"@
    }
}

/// The text that binds the `i`-th parameter to its argument or its default.
pub open spec fn bind_text(i: int, name: Seq<char>, default: Seq<char>) -> Seq<char> {
    let value = if default == "rt::Value::Undef"@ {
        getter_text(i) + ".cloned().unwrap_or(rt::Value::Undef)"@
    } else {
        getter_text(i) + ".cloned().unwrap_or_else(|| "@ + default + ")"@
    };
    "    let p_"@ + name + " = "@ + value + ";\n"@
}

/// The text that binds the first `n` parameters. Defaults see no parameter, and a parameter has its
/// name alone.
pub open spec fn binds_text(
    cx: Known,
    name: Seq<char>,
    params: Seq<Parameter>,
    n: nat,
) -> Emitted
    decreases n,
{
    if n == 0 {
        Ok((Seq::empty(), 0))
    } else {
        match binds_text(cx, name, params, (n - 1) as nat) {
            Err(m) => Err(m),
            Ok((t, k)) => if repeats(params, n - 1) {
                Err(
                    name + ": duplicate parameter `"@ + params[n - 1].name@
                        + "` \u{2014} AN.6 two-phase binding has no native shape"@,
                )
            } else {
                let default: Emitted = match params[n - 1].default {
                    None => Ok(("rt::Value::Undef"@, k)),
                    Some(d) => emitted(cx, d, Seq::empty(), k),
                };
                match default {
                    Err(m) => Err(name + ": default of `"@ + params[n - 1].name@ + "`: "@ + m),
                    Ok((v, k1)) => Ok((t + bind_text(n - 1, params[n - 1].name@, v), k1)),
                }
            },
        }
    }
}

/// The parameters as the names in scope of a body.
pub open spec fn param_env(params: Seq<Parameter>) -> Seq<(Seq<char>, Seq<char>)> {
    Seq::new(params.len(), |i: int| (params[i].name@, "p_"@ + params[i].name@))
}

/// How the code of a function opens.
pub open spec fn opening_text(name: Seq<char>) -> Seq<char> {
    "/// Generated native for `"@ + name
        + "` \u{2014} semantics route through the interpreter's own value\n/// algebra (`ops::`/`builtins::`), bit-identical to the interpreted reference by construction.\npub(super) fn "@
        + name
        + "(args: &[rt::Value]) -> rt::Result<rt::Value> {\n    // AR.10: past the depth budget, DECLINE to the pure interpreter \u{2014} explicit stack,\n    // same proven semantics; recursion cannot ride the Rust stack unbounded.\n    let Some(_depth) = rt::DepthGuard::enter() else {\n        return rt::run_interpreted(FALLBACK_SOURCES, \""@
        + name + "\", args);\n    };\n"@
}

fn opening(name: &str) -> (r: String)
    ensures
        r@ == opening_text(name@),
{
    let mut out: String = cat3(
        "/// Generated native for `",
        name,
        "` \u{2014} semantics route through the interpreter's own value\n/// algebra (`ops::`/`builtins::`), bit-identical to the interpreted reference by construction.\npub(super) fn ",
    );
    out.append(name);
    out.append(
        "(args: &[rt::Value]) -> rt::Result<rt::Value> {\n    // AR.10: past the depth budget, DECLINE to the pure interpreter \u{2014} explicit stack,\n    // same proven semantics; recursion cannot ride the Rust stack unbounded.\n    let Some(_depth) = rt::DepthGuard::enter() else {\n        return rt::run_interpreted(FALLBACK_SOURCES, \"",
    );
    out.append(name);
    out.append("\", args);\n    };\n");
    out
}

/// The code of one function.
pub open spec fn function_text(cx: Known, name: Seq<char>, params: Seq<Parameter>, body: Expr) -> Result<
    Seq<char>,
    Seq<char>,
> {
    match binds_text(cx, name, params, params.len()) {
        Err(m) => Err(m),
        Ok((t, k)) => match emitted(cx, body, param_env(params), k) {
            Err(m) => Err(name + ": "@ + m),
            Ok((b, _)) => Ok(
                opening_text(name) + t + "    let out = "@ + b + ";\n    Ok(out)\n}\n"@,
            ),
        },
    }
}

/// The code of the function that a program starts with.
pub open spec fn native_text(cx: Known, ss: Seq<Stmt>) -> Result<Seq<char>, Seq<char>> {
    if ss.len() == 0 {
        Err("reference holds no function definition"@)
    } else {
        match ss[0].kind {
            StmtKind::FunctionDef { name, params, body, .. } => function_text(
                cx,
                name@,
                params@,
                body,
            ),
            _ => Err("reference holds no function definition"@),
        }
    }
}

/// A text, or why there is none.
pub open spec fn string_res(r: Result<String, String>) -> Result<Seq<char>, Seq<char>> {
    match r {
        Ok(t) => Ok(t@),
        Err(m) => Err(m@),
    }
}

fn is_repeat(params: &Vec<Parameter>, at: usize) -> (r: bool)
    requires
        at < params@.len(),
    ensures
        r == repeats(params@, at as int),
{
    let mut j: usize = 0;
    while j < at
        invariant
            j <= at < params@.len(),
            forall|x: int| 0 <= x < j ==> (#[trigger] params@[x]).name@ != params@[at as int].name@,
        decreases at - j,
    {
        if same_name(&params[j].name, &params[at].name) {
            assert(params@[j as int].name@ == params@[at as int].name@);
            return true;
        }
        j += 1;
    }
    false
}

fn getter(i: usize) -> (r: String)
    ensures
        r@ == getter_text(i as int),
{
    if i == 0 {
        "args.first()".to_owned()
    } else {
        cat3("args.get(", dec(i as u64).as_str(), ")")
    }
}

fn bind_line(i: usize, name: &str, default: &str) -> (r: String)
    ensures
        r@ == bind_text(i as int, name@, default@),
{
    let value: String = if same(default, "rt::Value::Undef") {
        cat(getter(i).as_str(), ".cloned().unwrap_or(rt::Value::Undef)")
    } else {
        let mut v: String = cat3(
            getter(i).as_str(),
            ".cloned().unwrap_or_else(|| ",
            default,
        );
        v.append(")");
        v
    };
    cat5("    let p_", name, " = ", value.as_str(), ";\n")
}

proof fn lemma_binds_stop(cx: Known, name: Seq<char>, params: Seq<Parameter>, n: nat, m: nat)
    requires
        n <= m,
        binds_text(cx, name, params, n) is Err,
    ensures
        binds_text(cx, name, params, m) == binds_text(cx, name, params, n),
    decreases m,
{
    if n < m {
        lemma_binds_stop(cx, name, params, n, (m - 1) as nat);
    }
}

fn generate_function<D: Fn(&Expr) -> String>(
    name: &Name,
    params: &Vec<Parameter>,
    body: &Expr,
    baked: &Vec<(Name, Baked)>,
    siblings: &Vec<(Name, Vec<Name>)>,
    builtins: &Vec<Name>,
    show: &D,
) -> (r: Result<String, String>)
    requires
        show_ok(*show),
    ensures
        string_res(r) == function_text(
            Known {
                baked: bakes(baked@),
                siblings: signatures(siblings@),
                builtins: names_of(builtins@),
                shown: shows(*show),
            },
            name@,
            params@,
            *body,
        ),
{
    let mut em = Emitter { baked, siblings, builtins, show, locals: Vec::new(), fresh: 0 };
    let ghost cx = em.cx();
    let ghost start = em;
    assert(em.env() =~= Seq::<(Seq<char>, Seq<char>)>::empty());
    let mut lines: String = String::new();
    assert(lines@ =~= Seq::<char>::empty());
    let mut i: usize = 0;
    while i < params.len()
        invariant
            i <= params@.len(),
            em.like(start),
            cx == start.cx(),
            start.baked == baked,
            start.siblings == siblings,
            start.builtins == builtins,
            start.show == show,
            show_ok(*show),
            em.env() == Seq::<(Seq<char>, Seq<char>)>::empty(),
            binds_text(cx, name@, params@, i as nat) == Ok::<_, Seq<char>>((lines@, em.fresh)),
        decreases params@.len() - i,
    {
        if is_repeat(params, i) {
            proof {
                lemma_binds_stop(cx, name@, params@, (i + 1) as nat, params@.len());
            }
            return Err(
                cat3(
                    cat(name.as_str(), ": duplicate parameter `").as_str(),
                    params[i].name.as_str(),
                    "` \u{2014} AN.6 two-phase binding has no native shape",
                ),
            );
        }
        let default: Result<String, String> = match &params[i].default {
            None => Ok("rt::Value::Undef".to_owned()),
            Some(d) => em.expr(d),
        };
        match default {
            Err(m) => {
                proof {
                    lemma_binds_stop(cx, name@, params@, (i + 1) as nat, params@.len());
                }
                return Err(
                    cat5(
                        name.as_str(),
                        ": default of `",
                        params[i].name.as_str(),
                        "`: ",
                        m.as_str(),
                    ),
                );
            },
            Ok(v) => {
                lines.append(bind_line(i, params[i].name.as_str(), v.as_str()).as_str());
            },
        }
        i += 1;
    }
    let ghost all = param_env(params@);
    let mut j: usize = 0;
    while j < params.len()
        invariant
            j <= params@.len(),
            em.like(start),
            cx == start.cx(),
            start.baked == baked,
            start.siblings == siblings,
            start.builtins == builtins,
            start.show == show,
            show_ok(*show),
            all == param_env(params@),
            em.env() =~= all.take(j as int),
            binds_text(cx, name@, params@, params@.len()) == Ok::<_, Seq<char>>(
                (lines@, em.fresh),
            ),
        decreases params@.len() - j,
    {
        let ghost before = em.env();
        let id: String = cat("p_", params[j].name.as_str());
        let ghost shown = id@;
        em.locals.push((params[j].name.clone(), id));
        assert(em.env() =~= before.push((params@[j as int].name@, shown)));
        j += 1;
    }
    assert(all.take(all.len() as int) =~= all);
    match em.expr(body) {
        Err(m) => Err(cat3(name.as_str(), ": ", m.as_str())),
        Ok(b) => {
            let mut out: String = opening(name.as_str());
            out.append(lines.as_str());
            out.append("    let out = ");
            out.append(b.as_str());
            out.append(";\n    Ok(out)\n}\n");
            Ok(out)
        },
    }
}

/// The code of the function that a program starts with. `baked` holds the constants it may read,
/// `siblings` the functions generated beside it with their parameters. What has no text is refused
/// with its reason; `show` shows an expression that has none, by its debug form.
pub fn generate_native<D: Fn(&Expr) -> String>(
    prog: &Program,
    baked: &Vec<(Name, Baked)>,
    siblings: &Vec<(Name, Vec<Name>)>,
    builtins: &Vec<Name>,
    show: &D,
) -> (r: Result<String, String>)
    requires
        show_ok(*show),
    ensures
        string_res(r) == native_text(
            Known {
                baked: bakes(baked@),
                siblings: signatures(siblings@),
                builtins: names_of(builtins@),
                shown: shows(*show),
            },
            prog.stmts@,
        ),
{
    if prog.stmts.len() == 0 {
        return Err("reference holds no function definition".to_owned());
    }
    match &prog.stmts[0].kind {
        StmtKind::FunctionDef { name, params, body, .. } => generate_function(
            name,
            params,
            body,
            baked,
            siblings,
            builtins,
            show,
        ),
        _ => Err("reference holds no function definition".to_owned()),
    }
}

/// Whether a printer of numbers can be asked anything, and the same number has one text.
pub open spec fn printer_ok<T: Fn(u64) -> String>(t: T) -> bool {
    &&& forall|b: u64| call_requires(t, (b,))
    &&& forall|b: u64, r: String, s: String|
        call_ensures(t, (b,), r) && call_ensures(t, (b,), s) ==> r@ == s@
}

/// The text of a number, as a printer writes it.
pub open spec fn printed<T: Fn(u64) -> String>(t: T, b: u64) -> Seq<char> {
    (choose|r: String| call_ensures(t, (b,), r))@
}

/// A printer as a mathematical function.
pub open spec fn printer<T: Fn(u64) -> String>(t: T) -> spec_fn(u64) -> Seq<char> {
    |b: u64| printed(t, b)
}

fn print<T: Fn(u64) -> String>(t: &T, b: u64) -> (r: String)
    requires
        printer_ok(*t),
    ensures
        r@ == printer(*t)(b),
{
    t(b)
}

/// The text of a number that is not finite.
pub open spec fn odd_text(b: u64) -> Seq<char> {
    if is_nan(b) {
        "NaN"@
    } else if b == INF {
        "inf"@
    } else {
        "-inf"@
    }
}

fn odd(b: u64) -> (r: String)
    ensures
        r@ == odd_text(b),
{
    if nan(b) {
        "NaN".to_owned()
    } else if b == INF {
        "inf".to_owned()
    } else {
        "-inf".to_owned()
    }
}

/// A number laid open: as a program writes it where it is finite, else by its name.
pub open spec fn number_laid_open(b: u64, p: spec_fn(u64) -> Seq<char>) -> Seq<char> {
    if is_finite(b) {
        p(b)
    } else {
        odd_text(b)
    }
}

/// A value laid open: its form with what it holds. Of a function and of an object it is the name of
/// the form alone.
pub open spec fn laid_open(v: Val, p: spec_fn(u64) -> Seq<char>) -> Seq<char>
    decreases v, 0nat,
{
    match v {
        Val::Undef => "Undef"@,
        Val::Bool(b) => if b {
            "Bool(true)"@
        } else {
            "Bool(false)"@
        },
        Val::Num(b) => "Num("@ + number_laid_open(b, p) + ")"@,
        Val::Str(s) => "Str("@ + debug_text(s) + ")"@,
        Val::NumList(xs) => {
            let ts = Seq::new(xs.len(), |i: int| number_laid_open(xs[i], p));
            "NumList(["@ + joined(ts, ", "@, ts.len()) + "])"@
        },
        Val::List(xs) => "List(ValueList(["@ + joined(
            laid_open_upto(xs, xs.len(), p),
            ", "@,
            xs.len(),
        ) + "]))"@,
        Val::Range { start, step, end } => "Range { start: "@ + number_laid_open(start, p)
            + ", step: "@ + number_laid_open(step, p) + ", end: "@ + number_laid_open(end, p)
            + " }"@,
        Val::Function { .. } => "Function"@,
        Val::Object(_) => "Object"@,
    }
}

/// The first `n` of some values laid open.
pub open spec fn laid_open_upto(xs: Seq<Val>, n: nat, p: spec_fn(u64) -> Seq<char>) -> Seq<
    Seq<char>,
>
    decreases xs, n,
{
    if n == 0 || n > xs.len() {
        Seq::empty()
    } else {
        laid_open_upto(xs, (n - 1) as nat, p).push(laid_open(xs[n - 1], p))
    }
}

fn lay_number_open<T: Fn(u64) -> String>(b: u64, t: &T) -> (r: String)
    requires
        printer_ok(*t),
    ensures
        r@ == number_laid_open(b, printer(*t)),
{
    if finite(b) {
        print(t, b)
    } else {
        odd(b)
    }
}

fn lay_numbers_open<T: Fn(u64) -> String>(xs: &Vec<u64>, t: &T) -> (r: Vec<String>)
    requires
        printer_ok(*t),
    ensures
        texts(r@) == Seq::new(xs@.len(), |i: int| number_laid_open(xs@[i], printer(*t))),
        r@.len() == xs@.len(),
{
    let mut out: Vec<String> = Vec::new();
    let mut i: usize = 0;
    while i < xs.len()
        invariant
            i <= xs@.len(),
            printer_ok(*t),
            out@.len() == i,
            forall|k: int|
                0 <= k < i ==> (#[trigger] out@[k])@ == number_laid_open(xs@[k], printer(*t)),
        decreases xs@.len() - i,
    {
        out.push(lay_number_open(xs[i], t));
        i += 1;
    }
    assert(texts(out@) =~= Seq::new(xs@.len(), |i: int| number_laid_open(xs@[i], printer(*t))));
    out
}

fn lay_open<T: Fn(u64) -> String>(v: &Value, t: &T) -> (r: String)
    requires
        printer_ok(*t),
    ensures
        r@ == laid_open(v@, printer(*t)),
    decreases v@,
{
    match v {
        Value::Undef => "Undef".to_owned(),
        Value::Bool(b) => if *b {
            "Bool(true)".to_owned()
        } else {
            "Bool(false)".to_owned()
        },
        Value::Num(b) => cat3("Num(", lay_number_open(*b, t).as_str(), ")"),
        Value::Str(s) => cat3("Str(", debug_of(s.as_str()).as_str(), ")"),
        Value::NumList(xs) => {
            let ts: Vec<String> = lay_numbers_open(xs, t);
            cat3("NumList([", join(&ts, ", ").as_str(), "])")
        },
        Value::List(xs) => {
            proof {
                lemma_list_view(*xs);
            }
            let ghost vs = vals(xs.0@);
            let ghost p = printer(*t);
            let mut ts: Vec<String> = Vec::new();
            assert(texts(ts@) =~= Seq::<Seq<char>>::empty());
            let mut i: usize = 0;
            while i < xs.0.len()
                invariant
                    i <= xs.0@.len(),
                    printer_ok(*t),
                    p == printer(*t),
                    vs == vals(xs.0@),
                    v@ == Val::List(vs),
                    ts@.len() == i,
                    texts(ts@) == laid_open_upto(vs, i as nat, p),
                decreases xs.0@.len() - i,
            {
                assert(vs[i as int] == xs.0@[i as int]@);
                assert(decreases_to!(v@ => v@->List_0));
                assert(decreases_to!(vs => vs[i as int]));
                let ghost before = texts(ts@);
                let one: String = lay_open(&xs.0[i], t);
                let ghost shown = one@;
                ts.push(one);
                assert(texts(ts@) =~= before.push(shown));
                i += 1;
            }
            cat3("List(ValueList([", join(&ts, ", ").as_str(), "]))")
        },
        Value::Range { start, step, end } => {
            let head: String = cat3(
                "Range { start: ",
                lay_number_open(*start, t).as_str(),
                ", step: ",
            );
            let mut out: String = cat5(
                head.as_str(),
                lay_number_open(*step, t).as_str(),
                ", end: ",
                lay_number_open(*end, t).as_str(),
                " }",
            );
            assert(out@ =~= laid_open(v@, printer(*t)));
            out
        },
        Value::Function { .. } => "Function".to_owned(),
        Value::Object(_) => "Object".to_owned(),
    }
}

/// The constants that the first `n` of some values are; only numbers and lists of numbers are.
pub open spec fn baked_upto(
    entry: Seq<char>,
    vs: Seq<(Seq<char>, Val)>,
    n: nat,
    p: spec_fn(u64) -> Seq<char>,
) -> Result<
    Seq<(Seq<char>, Bake)>,
    Seq<char>,
>
    decreases n,
{
    if n == 0 {
        Ok(Seq::empty())
    } else {
        match baked_upto(entry, vs, (n - 1) as nat, p) {
            Err(m) => Err(m),
            Ok(bs) => match vs[n - 1].1 {
                Val::Num(b) => Ok(bs.push((vs[n - 1].0, Bake::Num(b)))),
                Val::NumList(xs) => Ok(bs.push((vs[n - 1].0, Bake::NumList(xs)))),
                other => Err(
                    entry + ": consts_v `"@ + vs[n - 1].0 + "` bakes "@ + laid_open(other, p)
                        + " \u{2014} not emittable in v0"@,
                ),
            },
        }
    }
}

/// The first number that is not finite, from the `i`-th on.
pub open spec fn odd_from(xs: Seq<u64>, i: int) -> Option<u64>
    decreases xs.len() - i,
{
    if i >= xs.len() {
        None
    } else if !is_finite(xs[i]) {
        Some(xs[i])
    } else {
        odd_from(xs, i + 1)
    }
}

/// The texts of numbers.
pub open spec fn printed_all(xs: Seq<u64>, p: spec_fn(u64) -> Seq<char>) -> Seq<Seq<char>> {
    Seq::new(xs.len(), |i: int| p(xs[i]))
}

/// A constant as a program writes it; one that is not finite is refused.
pub open spec fn source_text(
    entry: Seq<char>,
    name: Seq<char>,
    b: Bake,
    p: spec_fn(u64) -> Seq<char>,
) -> Result<Seq<char>, Seq<char>> {
    match b {
        Bake::Num(n) => if is_finite(n) {
            Ok(p(n))
        } else {
            Err(entry + ": const `"@ + name + "` bakes non-finite "@ + odd_text(n))
        },
        Bake::NumList(xs) => match odd_from(xs, 0) {
            Some(bad) => Err(
                entry + ": const `"@ + name + "` bakes non-finite element "@ + odd_text(bad),
            ),
            None => Ok("["@ + joined(printed_all(xs, p), ", "@, xs.len()) + "]"@),
        },
    }
}

/// A table of texts by name, in order, with one more; a known name takes the new text.
pub open spec fn put_text(
    t: Seq<(Seq<char>, Seq<char>)>,
    name: Seq<char>,
    text: Seq<char>,
    i: int,
) -> Seq<(Seq<char>, Seq<char>)>
    decreases t.len() - i,
{
    if i >= t.len() {
        t.push((name, text))
    } else if t[i].0 == name {
        t.update(i, (name, text))
    } else if text_lt(name, t[i].0) {
        t.insert(i, (name, text))
    } else {
        put_text(t, name, text, i + 1)
    }
}

/// The text of a name in a table, as putting another finds it.
pub open spec fn prior_text(t: Seq<(Seq<char>, Seq<char>)>, name: Seq<char>, i: int) -> Option<Seq<char>>
    decreases t.len() - i,
{
    if i >= t.len() {
        None
    } else if t[i].0 == name {
        Some(t[i].1)
    } else if text_lt(name, t[i].0) {
        None
    } else {
        prior_text(t, name, i + 1)
    }
}

/// A table after the first `n` constants. One name has one text.
pub open spec fn tabled(
    t: Seq<(Seq<char>, Seq<char>)>,
    entry: Seq<char>,
    bs: Seq<(Seq<char>, Bake)>,
    n: nat,
    p: spec_fn(u64) -> Seq<char>,
) -> Result<Seq<(Seq<char>, Seq<char>)>, Seq<char>>
    decreases n,
{
    if n == 0 {
        Ok(t)
    } else {
        match tabled(t, entry, bs, (n - 1) as nat, p) {
            Err(m) => Err(m),
            Ok(u) => match source_text(entry, bs[n - 1].0, bs[n - 1].1, p) {
                Err(m) => Err(m),
                Ok(text) => match prior_text(u, bs[n - 1].0, 0) {
                    Some(prev) => if prev != text {
                        Err(
                            "const `"@ + bs[n - 1].0 + "` baked differently across the batch ("@
                                + prev + " vs "@ + text + ")"@,
                        )
                    } else {
                        Ok(put_text(u, bs[n - 1].0, text, 0))
                    },
                    None => Ok(put_text(u, bs[n - 1].0, text, 0)),
                },
            },
        }
    }
}

/// Constants by name, or why there are none.
pub open spec fn bakes_res(r: Result<Vec<(Name, Baked)>, String>) -> Result<
    Seq<(Seq<char>, Bake)>,
    Seq<char>,
> {
    match r {
        Ok(bs) => Ok(bakes(bs@)),
        Err(m) => Err(m@),
    }
}

proof fn lemma_baked_stop(
    entry: Seq<char>,
    vs: Seq<(Seq<char>, Val)>,
    n: nat,
    m: nat,
    p: spec_fn(u64) -> Seq<char>,
)
    requires
        n <= m,
        baked_upto(entry, vs, n, p) is Err,
    ensures
        baked_upto(entry, vs, m, p) == baked_upto(entry, vs, n, p),
    decreases m,
{
    if n < m {
        lemma_baked_stop(entry, vs, n, (m - 1) as nat, p);
    }
}

fn bake_values<T: Fn(u64) -> String>(entry: &str, consts: &Vec<(Name, Value)>, t: &T) -> (r: Result<
    Vec<(Name, Baked)>,
    String,
>)
    requires
        printer_ok(*t),
    ensures
        bakes_res(r) == baked_upto(entry@, named_vals(consts@), consts@.len(), printer(*t)),
{
    let ghost vs = named_vals(consts@);
    let mut out: Vec<(Name, Baked)> = Vec::new();
    assert(bakes(out@) =~= Seq::<(Seq<char>, Bake)>::empty());
    let mut i: usize = 0;
    while i < consts.len()
        invariant
            i <= consts@.len(),
            vs == named_vals(consts@),
            printer_ok(*t),
            baked_upto(entry@, vs, i as nat, printer(*t)) == Ok::<_, Seq<char>>(bakes(out@)),
        decreases consts@.len() - i,
    {
        assert(vs[i as int] == (consts@[i as int].0@, consts@[i as int].1@));
        let ghost before = bakes(out@);
        let one: Baked = match &consts[i].1 {
            Value::Num(b) => Baked::Num(*b),
            Value::NumList(xs) => Baked::NumList(copy_nums(xs)),
            other => {
                proof {
                    lemma_baked_stop(entry@, vs, (i + 1) as nat, consts@.len(), printer(*t));
                }
                let mut m: String = cat5(
                    entry,
                    ": consts_v `",
                    consts[i].0.as_str(),
                    "` bakes ",
                    lay_open(other, t).as_str(),
                );
                m.append(" \u{2014} not emittable in v0");
                return Err(m);
            },
        };
        let ghost shown = one@;
        out.push((consts[i].0.clone(), one));
        assert(bakes(out@) =~= before.push((consts@[i as int].0@, shown)));
        i += 1;
    }
    Ok(out)
}

fn copy_nums(xs: &Vec<u64>) -> (r: Vec<u64>)
    ensures
        r@ == xs@,
{
    let mut out: Vec<u64> = Vec::new();
    let mut i: usize = 0;
    while i < xs.len()
        invariant
            i <= xs@.len(),
            out@ =~= xs@.take(i as int),
        decreases xs@.len() - i,
    {
        out.push(xs[i]);
        i += 1;
    }
    assert(xs@.take(xs@.len() as int) =~= xs@);
    out
}

fn find_odd(xs: &Vec<u64>) -> (r: Option<u64>)
    ensures
        r == odd_from(xs@, 0),
{
    let mut i: usize = 0;
    while i < xs.len()
        invariant
            i <= xs@.len(),
            odd_from(xs@, 0) == odd_from(xs@, i as int),
        decreases xs@.len() - i,
    {
        if !finite(xs[i]) {
            return Some(xs[i]);
        }
        i += 1;
    }
    None
}

fn source_of<T: Fn(u64) -> String>(entry: &str, name: &str, b: &Baked, t: &T) -> (r: Result<
    String,
    String,
>)
    requires
        printer_ok(*t),
    ensures
        string_res(r) == source_text(entry@, name@, b@, printer(*t)),
{
    match b {
        Baked::Num(n) => {
            if finite(*n) {
                Ok(print(t, *n))
            } else {
                Err(cat5(entry, ": const `", name, "` bakes non-finite ", odd(*n).as_str()))
            }
        },
        Baked::NumList(xs) => match find_odd(xs) {
            Some(bad) => Err(
                cat5(entry, ": const `", name, "` bakes non-finite element ", odd(bad).as_str()),
            ),
            None => {
                let ghost all = printed_all(xs@, printer(*t));
                let mut ts: Vec<String> = Vec::new();
                let mut i: usize = 0;
                while i < xs.len()
                    invariant
                        i <= xs@.len(),
                        printer_ok(*t),
                        all == printed_all(xs@, printer(*t)),
                        texts(ts@) =~= all.take(i as int),
                    decreases xs@.len() - i,
                {
                    let ghost before = texts(ts@);
                    let one: String = print(t, xs[i]);
                    let ghost shown = one@;
                    assert(all[i as int] == shown);
                    ts.push(one);
                    assert(texts(ts@) =~= before.push(shown));
                    i += 1;
                }
                assert(all.take(all.len() as int) =~= all);
                Ok(cat3("[", join(&ts, ", ").as_str(), "]"))
            },
        },
    }
}

/// Puts a text into a table by name, and gives back the one that was there.
fn put(t: &mut Vec<(Name, String)>, name: &Name, text: &str) -> (r: Option<String>)
    ensures
        idents(final(t)@) == put_text(idents(old(t)@), name@, text@, 0),
        match r {
            Some(p) => prior_text(idents(old(t)@), name@, 0) == Some(p@),
            None => prior_text(idents(old(t)@), name@, 0) is None,
        },
{
    let ghost all = idents(t@);
    let mut i: usize = 0;
    while i < t.len()
        invariant
            i <= t@.len(),
            *t == *old(t),
            all == idents(t@),
            put_text(all, name@, text@, 0) == put_text(all, name@, text@, i as int),
            prior_text(all, name@, 0) == prior_text(all, name@, i as int),
        decreases t@.len() - i,
    {
        assert(all[i as int] == (t@[i as int].0@, t@[i as int].1@));
        match text_rank(name.as_str(), t[i].0.as_str()) {
            Rank::Equal => {
                let prev: String = t[i].1.clone();
                t.set(i, (name.clone(), text.to_owned()));
                assert(idents(t@) =~= all.update(i as int, (name@, text@)));
                return Some(prev);
            },
            Rank::Less => {
                proof {
                    law_text_order(name@, all[i as int].0);
                }
                t.insert(i, (name.clone(), text.to_owned()));
                assert(idents(t@) =~= all.insert(i as int, (name@, text@)));
                return None;
            },
            Rank::Greater => {
                i += 1;
            },
        }
    }
    t.push((name.clone(), text.to_owned()));
    assert(idents(t@) =~= all.push((name@, text@)));
    None
}

proof fn lemma_tabled_stop(
    t: Seq<(Seq<char>, Seq<char>)>,
    entry: Seq<char>,
    bs: Seq<(Seq<char>, Bake)>,
    n: nat,
    m: nat,
    p: spec_fn(u64) -> Seq<char>,
)
    requires
        n <= m,
        tabled(t, entry, bs, n, p) is Err,
    ensures
        tabled(t, entry, bs, m, p) == tabled(t, entry, bs, n, p),
    decreases m,
{
    if n < m {
        lemma_tabled_stop(t, entry, bs, n, (m - 1) as nat, p);
    }
}

/// What an entry with some constants adds: the constants its code holds, and the table of all
/// constants as a program writes them.
pub open spec fn entry_baked(
    t: Seq<(Seq<char>, Seq<char>)>,
    entry: Seq<char>,
    vs: Seq<(Seq<char>, Val)>,
    p: spec_fn(u64) -> Seq<char>,
) -> Result<(Seq<(Seq<char>, Bake)>, Seq<(Seq<char>, Seq<char>)>), Seq<char>> {
    match baked_upto(entry, vs, vs.len(), p) {
        Err(m) => Err(m),
        Ok(bs) => match tabled(t, entry, bs, bs.len(), p) {
            Err(m) => Err(m),
            Ok(u) => Ok((bs, u)),
        },
    }
}

/// The constants that an entry holds, with their texts put into the table of the batch. A constant
/// that is no number and no list of numbers is refused, and so is one that is not finite, or one
/// whose name has another text already.
pub fn bake_entry<T: Fn(u64) -> String>(
    entry: &Name,
    consts: &Vec<(Name, Value)>,
    table: &mut Vec<(Name, String)>,
    t: &T,
) -> (r: Result<Vec<(Name, Baked)>, String>)
    requires
        printer_ok(*t),
    ensures
        match r {
            Ok(bs) => entry_baked(
                idents(old(table)@),
                entry@,
                named_vals(consts@),
                printer(*t),
            ) == Ok::<_, Seq<char>>((bakes(bs@), idents(final(table)@))),
            Err(m) => entry_baked(
                idents(old(table)@),
                entry@,
                named_vals(consts@),
                printer(*t),
            ) == Err::<(Seq<(Seq<char>, Bake)>, Seq<(Seq<char>, Seq<char>)>), Seq<char>>(m@),
        },
{
    let ghost start = idents(table@);
    let ghost p = printer(*t);
    assert(named_vals(consts@).len() == consts@.len());
    let baked: Vec<(Name, Baked)> = match bake_values(entry.as_str(), consts, t) {
        Ok(bs) => bs,
        Err(m) => {
            return Err(m);
        },
    };
    let ghost bs = bakes(baked@);
    let mut i: usize = 0;
    while i < baked.len()
        invariant
            i <= baked@.len(),
            printer_ok(*t),
            p == printer(*t),
            bs == bakes(baked@),
            start == idents(old(table)@),
            baked_upto(
                entry@,
                named_vals(consts@),
                named_vals(consts@).len(),
                p,
            ) == Ok::<_, Seq<char>>(bs),
            tabled(start, entry@, bs, i as nat, p) == Ok::<_, Seq<char>>(idents(table@)),
        decreases baked@.len() - i,
    {
        assert(bs[i as int] == (baked@[i as int].0@, baked@[i as int].1@));
        let name: &Name = &baked[i].0;
        match source_of(entry.as_str(), name.as_str(), &baked[i].1, t) {
            Err(m) => {
                proof {
                    lemma_tabled_stop(start, entry@, bs, (i + 1) as nat, bs.len(), p);
                }
                return Err(m);
            },
            Ok(text) => match put(table, name, text.as_str()) {
                Some(prev) => {
                    if !same(prev.as_str(), text.as_str()) {
                        proof {
                            lemma_tabled_stop(start, entry@, bs, (i + 1) as nat, bs.len(), p);
                        }
                        let mut m: String = cat5(
                            "const `",
                            name.as_str(),
                            "` baked differently across the batch (",
                            prev.as_str(),
                            " vs ",
                        );
                        m.append(text.as_str());
                        m.append(")");
                        return Err(m);
                    }
                },
                None => {},
            },
        }
        i += 1;
    }
    Ok(baked)
}

/// A function that native code can be generated for: its name, its reference as text and as a
/// program, and the constants it may read.
#[derive(Debug)]
pub struct Source {
    pub name: Name,
    pub reference: String,
    pub prog: Program,
    pub consts: Vec<(Name, Value)>,
}

/// A function that native code can be generated for, mathematically.
pub struct Ref {
    pub name: Seq<char>,
    pub reference: Seq<char>,
    pub stmts: Seq<Stmt>,
    pub consts: Seq<(Seq<char>, Val)>,
}

impl View for Source {
    type V = Ref;

    open spec fn view(&self) -> Ref {
        Ref {
            name: self.name@,
            reference: self.reference@,
            stmts: self.prog.stmts@,
            consts: named_vals(self.consts@),
        }
    }
}

/// Some functions, mathematically.
pub open spec fn refs(ss: Seq<Source>) -> Seq<Ref> {
    Seq::new(ss.len(), |i: int| ss[i]@)
}

/// The function of a name, from the `i`-th on.
pub open spec fn ref_from(rs: Seq<Ref>, name: Seq<char>, i: int) -> Option<Ref>
    decreases rs.len() - i,
{
    if i >= rs.len() {
        None
    } else if rs[i].name == name {
        Some(rs[i])
    } else {
        ref_from(rs, name, i + 1)
    }
}

/// Why a name has no code.
pub open spec fn unknown_entry(name: Seq<char>) -> Seq<char> {
    "`"@ + name + "` is not a registry entry"@
}

/// The functions of the first `n` names with their parameters.
pub open spec fn batch_signatures(
    rs: Seq<Ref>,
    names: Seq<Seq<char>>,
    n: nat,
    bs: Set<Seq<char>>,
) -> Result<Seq<(Seq<char>, Seq<Seq<char>>)>, Seq<char>>
    decreases n,
{
    if n == 0 {
        Ok(Seq::empty())
    } else {
        match batch_signatures(rs, names, (n - 1) as nat, bs) {
            Err(m) => Err(m),
            Ok(ss) => match ref_from(rs, names[n - 1], 0) {
                None => Err(unknown_entry(names[n - 1])),
                Some(e) => match analyzed(e.stmts, bs) {
                    Err(m) => Err(m),
                    Ok(a) => Ok(ss.push((a.name, a.params))),
                },
            },
        }
    }
}

/// Whether a text holds a quote followed by a hash, which would end a raw string.
pub open spec fn ends_raw(t: Seq<char>) -> bool {
    exists|i: int| 0 <= i && i + 1 < t.len() && #[trigger] t[i] == '"' && t[i + 1] == '#'
}

/// What the code of a batch is made of: the constants of all its programs, their references, and
/// its functions.
pub struct Batch {
    pub table: Seq<(Seq<char>, Seq<char>)>,
    pub references: Seq<char>,
    pub functions: Seq<char>,
}

/// What the code of the first `n` names is made of.
pub open spec fn batched(
    rs: Seq<Ref>,
    names: Seq<Seq<char>>,
    n: nat,
    siblings: Seq<(Seq<char>, Seq<Seq<char>>)>,
    builtins: Seq<Seq<char>>,
    p: spec_fn(u64) -> Seq<char>,
    shown: spec_fn(Expr) -> Seq<char>,
) -> Result<Batch, Seq<char>>
    decreases n,
{
    if n == 0 {
        Ok(Batch { table: Seq::empty(), references: Seq::empty(), functions: Seq::empty() })
    } else {
        match batched(rs, names, (n - 1) as nat, siblings, builtins, p, shown) {
            Err(m) => Err(m),
            Ok(b) => match ref_from(rs, names[n - 1], 0) {
                None => Err(unknown_entry(names[n - 1])),
                Some(e) => match entry_baked(b.table, e.name, e.consts, p) {
                    Err(m) => Err(m),
                    Ok((bs, table)) => if ends_raw(e.reference) {
                        Err(
                            names[n - 1]
                                + ": reference contains `\"#` \u{2014} raw string emission breaks"@,
                        )
                    } else {
                        match native_text(Known { baked: bs, siblings, builtins, shown }, e.stmts) {
                            Err(m) => Err(m),
                            Ok(t) => Ok(
                                Batch {
                                    table,
                                    references: b.references + e.reference + "\n"@,
                                    functions: b.functions + t + "\n"@,
                                },
                            ),
                        }
                    },
                },
            },
        }
    }
}

/// The lines of the first `n` constants of a table.
pub open spec fn const_lines(t: Seq<(Seq<char>, Seq<char>)>, n: nat) -> Seq<char>
    decreases n,
{
    if n == 0 {
        Seq::empty()
    } else {
        const_lines(t, (n - 1) as nat) + t[n - 1].0 + " = "@ + t[n - 1].1 + ";\n"@
    }
}

/// The code of a batch of functions: the program to fall back on, with the
/// constants before the references, and the functions.
pub open spec fn module_text(
    rs: Seq<Ref>,
    names: Seq<Seq<char>>,
    builtins: Seq<Seq<char>>,
    p: spec_fn(u64) -> Seq<char>,
    shown: spec_fn(Expr) -> Seq<char>,
) -> Result<Seq<char>, Seq<char>> {
    match batch_signatures(rs, names, names.len(), name_set(builtins)) {
        Err(m) => Err(m),
        Ok(siblings) => match batched(rs, names, names.len(), siblings, builtins, p, shown) {
            Err(m) => Err(m),
            Ok(b) => Ok(
                "// GENERATED by `eval::transpile::generate_module` (AR.6) \u{2014} DO NOT EDIT.\n// Refresh: FAB_REGEN=1 cargo nextest run -p fab-lang -E 'test(generated_file_is_current)'\n//\n// Every operation routes through the interpreter's own value algebra, so a generated\n// native is bit-identical to interpreting its reference BY CONSTRUCTION \u{2014} the win is the\n// deleted interpretation overhead, not different math.\n\n#![allow(\n    clippy::unreadable_literal,\n    clippy::cloned_ref_to_slice_refs,\n    clippy::used_underscore_items,\n    clippy::possible_missing_else,\n    clippy::collapsible_else_if,\n    reason = \"generated code: bit-exact from_bits literals, mechanical clones, \\\n              upstream's underscore-prefixed names, and one-line block emission \\\n              are the emitter's idiom\"\n)]\n\n// AR.13: `rt` is the ONLY thing generated code names. `extern crate self as fab_lang`\n// makes this path resolve inside fab-lang too, so moving this file into its own crate\n// cannot change a byte of what follows.\nuse fab_lang::rt;\n\n/// Every baked constant + the batch's verbatim references as ONE interpretable program \u{2014}\n/// the AR.10 depth fallback's target (see `native_rt`). Constants print via Rust's\n/// roundtrip-exact float formatting, so the interpreted bindings equal the bakes bit-for-bit.\npub(super) const FALLBACK_SOURCES: &str = r#\"\n"@ + const_lines(
                    b.table,
                    b.table.len(),
                ) + b.references + "\"#;\n\n"@ + b.functions,
            ),
        },
    }
}

fn find_source(rs: &Vec<Source>, name: &Name) -> (r: Option<usize>)
    ensures
        match r {
            Some(i) => i < rs@.len() && ref_from(refs(rs@), name@, 0) == Some(rs@[i as int]@)
                && rs@[i as int].name@ == name@,
            None => ref_from(refs(rs@), name@, 0) is None,
        },
{
    let ghost all = refs(rs@);
    let mut i: usize = 0;
    while i < rs.len()
        invariant
            i <= rs@.len(),
            all == refs(rs@),
            ref_from(all, name@, 0) == ref_from(all, name@, i as int),
        decreases rs@.len() - i,
    {
        assert(all[i as int] == rs@[i as int]@);
        if same_name(&rs[i].name, name) {
            return Some(i);
        }
        i += 1;
    }
    None
}

fn breaks_raw(t: &str) -> (r: bool)
    ensures
        r == ends_raw(t@),
{
    let cs: Vec<char> = crate::chars::chars_of(t);
    let mut i: usize = 0;
    while i < cs.len()
        invariant
            i <= cs@.len(),
            cs@ == t@,
            forall|j: int|
                0 <= j < i && j + 1 < t@.len() ==> !(#[trigger] t@[j] == '"' && t@[j + 1] == '#'),
        decreases cs@.len() - i,
    {
        if cs[i] == '"' && cs.len() - i > 1 && cs[i + 1] == '#' {
            assert(t@[i as int] == '"' && t@[i + 1] == '#');
            return true;
        }
        i += 1;
    }
    false
}

proof fn lemma_signatures_stop(
    rs: Seq<Ref>,
    names: Seq<Seq<char>>,
    n: nat,
    m: nat,
    bs: Set<Seq<char>>,
)
    requires
        n <= m,
        batch_signatures(rs, names, n, bs) is Err,
    ensures
        batch_signatures(rs, names, m, bs) == batch_signatures(rs, names, n, bs),
    decreases m,
{
    if n < m {
        lemma_signatures_stop(rs, names, n, (m - 1) as nat, bs);
    }
}

proof fn lemma_batch_stops(
    rs: Seq<Ref>,
    names: Seq<Seq<char>>,
    n: nat,
    m: nat,
    siblings: Seq<(Seq<char>, Seq<Seq<char>>)>,
    builtins: Seq<Seq<char>>,
    p: spec_fn(u64) -> Seq<char>,
    shown: spec_fn(Expr) -> Seq<char>,
)
    requires
        n <= m,
        batched(rs, names, n, siblings, builtins, p, shown) is Err,
    ensures
        batched(rs, names, m, siblings, builtins, p, shown) == batched(
            rs,
            names,
            n,
            siblings,
            builtins,
            p,
            shown,
        ),
    decreases m,
{
    if n < m {
        lemma_batch_stops(rs, names, n, (m - 1) as nat, siblings, builtins, p, shown);
    }
}

fn all_signatures(registry: &Vec<Source>, names: &Vec<Name>, builtins: &Vec<Name>) -> (r: Result<
    Vec<(Name, Vec<Name>)>,
    String,
>)
    ensures
        match r {
            Ok(ss) => batch_signatures(
                refs(registry@),
                names_of(names@),
                names@.len(),
                name_set(names_of(builtins@)),
            ) == Ok::<_, Seq<char>>(signatures(ss@)),
            Err(m) => batch_signatures(
                refs(registry@),
                names_of(names@),
                names@.len(),
                name_set(names_of(builtins@)),
            ) == Err::<Seq<(Seq<char>, Seq<Seq<char>>)>, Seq<char>>(m@),
        },
{
    let ghost rs = refs(registry@);
    let ghost ns = names_of(names@);
    let ghost bs = name_set(names_of(builtins@));
    let mut out: Vec<(Name, Vec<Name>)> = Vec::new();
    assert(signatures(out@) =~= Seq::<(Seq<char>, Seq<Seq<char>>)>::empty());
    let mut i: usize = 0;
    while i < names.len()
        invariant
            i <= names@.len(),
            rs == refs(registry@),
            ns == names_of(names@),
            bs == name_set(names_of(builtins@)),
            batch_signatures(rs, ns, i as nat, bs) == Ok::<_, Seq<char>>(signatures(out@)),
        decreases names@.len() - i,
    {
        assert(ns[i as int] == names@[i as int]@);
        let at: usize = match find_source(registry, &names[i]) {
            Some(k) => k,
            None => {
                proof {
                    lemma_signatures_stop(rs, ns, (i + 1) as nat, names@.len(), bs);
                }
                return Err(cat3("`", names[i].as_str(), "` is not a registry entry"));
            },
        };
        match analyze_function(&registry[at].prog, builtins) {
            Err(m) => {
                proof {
                    lemma_signatures_stop(rs, ns, (i + 1) as nat, names@.len(), bs);
                }
                return Err(m);
            },
            Ok(a) => {
                let ghost before = signatures(out@);
                let ghost shown = (a@.name, a@.params);
                out.push((a.name, a.params));
                assert(signatures(out@) =~= before.push(shown));
            },
        }
        i += 1;
    }
    Ok(out)
}

fn const_text(t: &Vec<(Name, String)>) -> (r: String)
    ensures
        r@ == const_lines(idents(t@), t@.len()),
{
    let ghost all = idents(t@);
    let mut out: String = String::new();
    assert(out@ =~= Seq::<char>::empty());
    let mut i: usize = 0;
    while i < t.len()
        invariant
            i <= t@.len(),
            all == idents(t@),
            out@ == const_lines(all, i as nat),
        decreases t@.len() - i,
    {
        assert(all[i as int] == (t@[i as int].0@, t@[i as int].1@));
        out.append(t[i].0.as_str());
        out.append(" = ");
        out.append(t[i].1.as_str());
        out.append(";\n");
        i += 1;
    }
    out
}

/// The code of a batch of functions. Every function of the batch may call every
/// other one. `t` prints a finite number so that it reads back as the same number, and `show` shows
/// an expression that has no text. A name that is not in the registry, a reference without code, and
/// constants that disagree are refused.
pub fn generate_module<T: Fn(u64) -> String, D: Fn(&Expr) -> String>(
    registry: &Vec<Source>,
    entry_names: &Vec<Name>,
    builtins: &Vec<Name>,
    t: &T,
    show: &D,
) -> (r: Result<String, String>)
    requires
        printer_ok(*t),
        show_ok(*show),
    ensures
        string_res(r) == module_text(
            refs(registry@),
            names_of(entry_names@),
            names_of(builtins@),
            printer(*t),
            shows(*show),
        ),
{
    let ghost rs = refs(registry@);
    let ghost d = shows(*show);
    let ghost ns = names_of(entry_names@);
    let ghost bu = names_of(builtins@);
    let ghost p = printer(*t);
    assert(ns.len() == entry_names@.len());
    let siblings: Vec<(Name, Vec<Name>)> = match all_signatures(registry, entry_names, builtins) {
        Ok(s) => s,
        Err(m) => {
            return Err(m);
        },
    };
    let ghost sigs = signatures(siblings@);
    let mut table: Vec<(Name, String)> = Vec::new();
    let mut references: String = String::new();
    let mut functions: String = String::new();
    assert(idents(table@) =~= Seq::<(Seq<char>, Seq<char>)>::empty());
    assert(references@ =~= Seq::<char>::empty());
    assert(functions@ =~= Seq::<char>::empty());
    let mut i: usize = 0;
    while i < entry_names.len()
        invariant
            i <= entry_names@.len(),
            ns.len() == entry_names@.len(),
            printer_ok(*t),
            p == printer(*t),
            show_ok(*show),
            d == shows(*show),
            rs == refs(registry@),
            ns == names_of(entry_names@),
            bu == names_of(builtins@),
            sigs == signatures(siblings@),
            batch_signatures(rs, ns, ns.len(), name_set(bu)) == Ok::<_, Seq<char>>(sigs),
            batched(rs, ns, i as nat, sigs, bu, p, d) == Ok::<_, Seq<char>>(
                Batch {
                    table: idents(table@),
                    references: references@,
                    functions: functions@,
                },
            ),
        decreases entry_names@.len() - i,
    {
        assert(ns[i as int] == entry_names@[i as int]@);
        let name: &Name = &entry_names[i];
        let at: usize = match find_source(registry, name) {
            Some(k) => k,
            None => {
                proof {
                    lemma_batch_stops(rs, ns, (i + 1) as nat, ns.len(), sigs, bu, p, d);
                }
                return Err(cat3("`", name.as_str(), "` is not a registry entry"));
            },
        };
        let entry: &Source = &registry[at];
        let baked: Vec<(Name, Baked)> = match bake_entry(&entry.name, &entry.consts, &mut table, t) {
            Ok(b) => b,
            Err(m) => {
                proof {
                    lemma_batch_stops(rs, ns, (i + 1) as nat, ns.len(), sigs, bu, p, d);
                }
                return Err(m);
            },
        };
        if breaks_raw(entry.reference.as_str()) {
            proof {
                lemma_batch_stops(rs, ns, (i + 1) as nat, ns.len(), sigs, bu, p, d);
            }
            return Err(
                cat(
                    name.as_str(),
                    ": reference contains `\"#` \u{2014} raw string emission breaks",
                ),
            );
        }
        match generate_native(&entry.prog, &baked, &siblings, builtins, show) {
            Err(m) => {
                proof {
                    lemma_batch_stops(rs, ns, (i + 1) as nat, ns.len(), sigs, bu, p, d);
                }
                return Err(m);
            },
            Ok(code) => {
                references.append(entry.reference.as_str());
                references.append("\n");
                functions.append(code.as_str());
                functions.append("\n");
            },
        }
        i += 1;
    }
    let mut out: String = "// GENERATED by `eval::transpile::generate_module` (AR.6) \u{2014} DO NOT EDIT.\n// Refresh: FAB_REGEN=1 cargo nextest run -p fab-lang -E 'test(generated_file_is_current)'\n//\n// Every operation routes through the interpreter's own value algebra, so a generated\n// native is bit-identical to interpreting its reference BY CONSTRUCTION \u{2014} the win is the\n// deleted interpretation overhead, not different math.\n\n#![allow(\n    clippy::unreadable_literal,\n    clippy::cloned_ref_to_slice_refs,\n    clippy::used_underscore_items,\n    clippy::possible_missing_else,\n    clippy::collapsible_else_if,\n    reason = \"generated code: bit-exact from_bits literals, mechanical clones, \\\n              upstream's underscore-prefixed names, and one-line block emission \\\n              are the emitter's idiom\"\n)]\n\n// AR.13: `rt` is the ONLY thing generated code names. `extern crate self as fab_lang`\n// makes this path resolve inside fab-lang too, so moving this file into its own crate\n// cannot change a byte of what follows.\nuse fab_lang::rt;\n\n/// Every baked constant + the batch's verbatim references as ONE interpretable program \u{2014}\n/// the AR.10 depth fallback's target (see `native_rt`). Constants print via Rust's\n/// roundtrip-exact float formatting, so the interpreted bindings equal the bakes bit-for-bit.\npub(super) const FALLBACK_SOURCES: &str = r#\"\n".to_owned();
    out.append(const_text(&table).as_str());
    out.append(references.as_str());
    out.append("\"#;\n\n");
    out.append(functions.as_str());
    Ok(out)
}

/// The functions that the generated file holds, in the order in which they are written. A function
/// may call any other of them.
pub open spec fn generated_names() -> Seq<Seq<char>> {
    seq![
        "_fab_poc_sq"@,
        "_fab_poc_near0"@,
        "_fab_poc_outer"@,
        "_fab_poc_isup"@,
        "is_nan"@,
        "is_finite"@,
        "_fab_poc_band2"@,
        "is_def"@,
        "is_str"@,
        "default"@,
        "last"@,
        "_fab_poc_band3"@,
        "approx"@,
        "posmod"@,
        "idx"@,
        "_fab_poc_band4"@,
    ]
}

/// The functions that the generated file holds, in the order in which they are written.
pub fn generated_entries() -> (r: Vec<&'static str>)
    ensures
        Seq::new(r@.len(), |i: int| r@[i]@) == generated_names(),
{
    let mut out: Vec<&'static str> = Vec::new();
    out.push("_fab_poc_sq");
    out.push("_fab_poc_near0");
    out.push("_fab_poc_outer");
    out.push("_fab_poc_isup");
    out.push("is_nan");
    out.push("is_finite");
    out.push("_fab_poc_band2");
    out.push("is_def");
    out.push("is_str");
    out.push("default");
    out.push("last");
    out.push("_fab_poc_band3");
    out.push("approx");
    out.push("posmod");
    out.push("idx");
    out.push("_fab_poc_band4");
    assert(Seq::new(out@.len(), |i: int| out@[i]@) =~= generated_names());
    out
}

/// The constants that code holds are the values that they are given as, in their order, each under its name; a value
/// other than a number or a list of numbers is refused.
pub proof fn law_constants_are_kept(
    entry: Seq<char>,
    vs: Seq<(Seq<char>, Val)>,
    n: nat,
    p: spec_fn(u64) -> Seq<char>,
    i: int,
)
    requires
        0 <= i < n <= vs.len(),
    ensures
        baked_upto(entry, vs, n, p) matches Ok(bs) ==> bs.len() == n && bs[i].0 == vs[i].0
            && crate::meaning::baked_value(bs[i].1) == vs[i].1,
        !(vs[i].1 is Num) && !(vs[i].1 is NumList) ==> baked_upto(entry, vs, n, p) is Err,
    decreases n,
{
    if i < n - 1 {
        law_constants_are_kept(entry, vs, (n - 1) as nat, p, i);
    } else if n > 1 {
        law_constants_are_kept(entry, vs, (n - 1) as nat, p, 0);
    }
}

/// Whether a table of texts is in the order of its names, with one text for each.
pub open spec fn in_table_order(t: Seq<(Seq<char>, Seq<char>)>) -> bool {
    forall|i: int, j: int| 0 <= i < j < t.len() ==> text_lt((#[trigger] t[i]).0, (#[trigger] t[j]).0)
}

/// A text that is put in a table is found by its name, no other name finds anything else, and the table stays in order.
pub proof fn law_tables(t: Seq<(Seq<char>, Seq<char>)>, name: Seq<char>, text: Seq<char>, other: Seq<char>)
    requires
        in_table_order(t),
    ensures
        ({
            let after = put_text(t, name, text, 0);
            &&& in_table_order(after)
            &&& prior_text(after, name, 0) == Some(text)
            &&& other != name ==> prior_text(after, other, 0) == prior_text(t, other, 0)
        }),
{
    lemma_put(t, name, text, 0);
    let after = put_text(t, name, text, 0);
    let at = choose|at: int| #[trigger] put_at(t, name, text, after, at);
    lemma_sorted_after(t, name, text, after, at);
    lemma_prior(after, name, 0, at);
    if other != name {
        if exists|k: int| 0 <= k < t.len() && (#[trigger] t[k]).0 == other {
            let k = choose|k: int| 0 <= k < t.len() && (#[trigger] t[k]).0 == other;
            lemma_prior(t, other, 0, k);
            if after.len() == t.len() {
                assert(after[k] == t[k]);
                lemma_prior(after, other, 0, k);
            } else if k < at {
                assert(after[k] == t[k]);
                lemma_prior(after, other, 0, k);
            } else {
                assert(after[k + 1] == t[k]);
                lemma_prior(after, other, 0, k + 1);
            }
        } else {
            lemma_no_prior(t, other, 0);
            assert forall|k: int| 0 <= k < after.len() implies (#[trigger] after[k]).0 != other by {
                if after.len() == t.len() {
                    if k != at {
                        assert(after[k] == t[k]);
                    }
                } else if k < at {
                    assert(after[k] == t[k]);
                } else if k > at {
                    assert(after[k] == t[k - 1]);
                }
            }
            lemma_no_prior(after, other, 0);
        }
    }
}

spec fn put_at(
    t: Seq<(Seq<char>, Seq<char>)>,
    name: Seq<char>,
    text: Seq<char>,
    after: Seq<(Seq<char>, Seq<char>)>,
    at: int,
) -> bool {
    &&& 0 <= at <= t.len()
    &&& forall|k: int| 0 <= k < at ==> text_lt((#[trigger] t[k]).0, name)
    &&& if at < t.len() && t[at].0 == name {
        after == t.update(at, (name, text))
    } else {
        after == t.insert(at, (name, text)) && (at < t.len() ==> text_lt(name, t[at].0))
    }
}

proof fn lemma_put(t: Seq<(Seq<char>, Seq<char>)>, name: Seq<char>, text: Seq<char>, i: int)
    requires
        in_table_order(t),
        0 <= i <= t.len(),
        forall|k: int| 0 <= k < i ==> text_lt((#[trigger] t[k]).0, name),
    ensures
        exists|at: int| #[trigger] put_at(t, name, text, put_text(t, name, text, i), at),
    decreases t.len() - i,
{
    if i >= t.len() {
        assert(t.push((name, text)) =~= t.insert(i, (name, text)));
        assert(put_at(t, name, text, put_text(t, name, text, i), i));
    } else if t[i].0 == name || text_lt(name, t[i].0) {
        law_text_order(name, t[i].0);
        assert(put_at(t, name, text, put_text(t, name, text, i), i));
    } else {
        law_text_order(name, t[i].0);
        lemma_put(t, name, text, i + 1);
    }
}

proof fn lemma_sorted_after(
    t: Seq<(Seq<char>, Seq<char>)>,
    name: Seq<char>,
    text: Seq<char>,
    after: Seq<(Seq<char>, Seq<char>)>,
    at: int,
)
    requires
        in_table_order(t),
        put_at(t, name, text, after, at),
    ensures
        in_table_order(after),
        at < after.len(),
        after[at] == (name, text),
{
    if at < t.len() && t[at].0 == name {
        assert forall|i: int, j: int| 0 <= i < j < after.len() implies text_lt(
            (#[trigger] after[i]).0,
            (#[trigger] after[j]).0,
        ) by {
            assert(after[i].0 == t[i].0 && after[j].0 == t[j].0);
        }
    } else {
        assert forall|i: int, j: int| 0 <= i < j < after.len() implies text_lt(
            (#[trigger] after[i]).0,
            (#[trigger] after[j]).0,
        ) by {
            if j < at {
                assert(after[i] == t[i] && after[j] == t[j]);
            } else if j == at {
                assert(after[i] == t[i]);
            } else if i == at {
                assert(after[j] == t[j - 1]);
                if j - 1 > at {
                    crate::chars::law_text_order_transitive(name, t[at].0, t[j - 1].0);
                }
            } else if i < at {
                assert(after[i] == t[i] && after[j] == t[j - 1]);
            } else {
                assert(after[i] == t[i - 1] && after[j] == t[j - 1]);
            }
        }
    }
}

proof fn lemma_prior(t: Seq<(Seq<char>, Seq<char>)>, name: Seq<char>, i: int, at: int)
    requires
        in_table_order(t),
        0 <= i <= at < t.len(),
        t[at].0 == name,
    ensures
        prior_text(t, name, i) == Some(t[at].1),
    decreases at - i,
{
    if i < at {
        assert(text_lt(t[i].0, t[at].0));
        law_text_order(t[i].0, name);
        lemma_prior(t, name, i + 1, at);
    }
}

proof fn lemma_no_prior(t: Seq<(Seq<char>, Seq<char>)>, name: Seq<char>, i: int)
    requires
        0 <= i,
        forall|k: int| 0 <= k < t.len() ==> (#[trigger] t[k]).0 != name,
    ensures
        prior_text(t, name, i) is None,
    decreases t.len() - i,
{
    if i < t.len() && !text_lt(name, t[i].0) {
        lemma_no_prior(t, name, i + 1);
    }
}

/// A constant is written as an assignment of its name, and a list of numbers in brackets with commas between them; one
/// that is not finite is refused.
pub proof fn law_constants_are_written(
    entry: Seq<char>,
    name: Seq<char>,
    x: u64,
    t: Seq<(Seq<char>, Seq<char>)>,
    n: nat,
    p: spec_fn(u64) -> Seq<char>,
)
    requires
        0 < n <= t.len(),
    ensures
        is_finite(x) ==> source_text(entry, name, Bake::Num(x), p) == Ok::<Seq<char>, Seq<char>>(p(x)),
        !is_finite(x) ==> source_text(entry, name, Bake::Num(x), p) is Err,
        is_finite(x) ==> source_text(entry, name, Bake::NumList(seq![x]), p) == Ok::<Seq<char>, Seq<char>>(
            "["@ + p(x) + "]"@,
        ),
        const_lines(t, n) == const_lines(t, (n - 1) as nat) + t[n - 1].0 + " = "@ + t[n - 1].1 + ";\n"@,
{
    let xs = seq![x];
    assert(xs.len() == 1 && xs[0] == x);
    assert(printed_all(xs, p)[0] == p(x));
    if is_finite(x) {
        assert(odd_from(xs, 1) is None);
        assert(odd_from(xs, 0) is None);
        assert(joined(printed_all(xs, p), ", "@, 1) == p(x));
    }
}

/// A batch holds, for each of its names, the reference and the code of the function of that name, in the order of the
/// names.
pub proof fn law_batches(
    rs: Seq<Ref>,
    names: Seq<Seq<char>>,
    n: nat,
    siblings: Seq<(Seq<char>, Seq<Seq<char>>)>,
    builtins: Seq<Seq<char>>,
    p: spec_fn(u64) -> Seq<char>,
    shown: spec_fn(Expr) -> Seq<char>,
)
    requires
        0 < n <= names.len(),
    ensures
        batched(rs, names, n, siblings, builtins, p, shown) matches Ok(b) ==> {
            let before = batched(rs, names, (n - 1) as nat, siblings, builtins, p, shown)->Ok_0;
            let e = ref_from(rs, names[n - 1], 0)->Some_0;
            &&& ref_from(rs, names[n - 1], 0) is Some && e.name == names[n - 1]
            &&& b.references == before.references + e.reference + "\n"@
            &&& exists|bs: Seq<(Seq<char>, Bake)>|
                #[trigger] native_text(Known { baked: bs, siblings, builtins, shown }, e.stmts) matches Ok(t)
                    && b.functions == before.functions + t + "\n"@
        },
        ref_from(rs, names[n - 1], 0) is None ==> batched(rs, names, n, siblings, builtins, p, shown) is Err,
{
    lemma_ref(rs, names[n - 1], 0);
    if let Ok(b) = batched(rs, names, n, siblings, builtins, p, shown) {
        let before = batched(rs, names, (n - 1) as nat, siblings, builtins, p, shown)->Ok_0;
        let e = ref_from(rs, names[n - 1], 0)->Some_0;
        let bs = entry_baked(before.table, e.name, e.consts, p)->Ok_0.0;
        assert(native_text(Known { baked: bs, siblings, builtins, shown }, e.stmts) is Ok);
    }
}

proof fn lemma_ref(rs: Seq<Ref>, name: Seq<char>, i: int)
    requires
        0 <= i,
    ensures
        ref_from(rs, name, i) matches Some(e) ==> e.name == name,
    decreases rs.len() - i,
{
    if i < rs.len() && rs[i].name != name {
        lemma_ref(rs, name, i + 1);
    }
}

/// The code of a batch ends with the program to fall back on, the constants before the references, and after it the
/// functions, whose code is that of all its names.
pub proof fn law_modules_are_laid_out(
    rs: Seq<Ref>,
    names: Seq<Seq<char>>,
    builtins: Seq<Seq<char>>,
    p: spec_fn(u64) -> Seq<char>,
    shown: spec_fn(Expr) -> Seq<char>,
)
    requires
        module_text(rs, names, builtins, p, shown) is Ok,
    ensures
        exists|head: Seq<char>, siblings: Seq<(Seq<char>, Seq<Seq<char>>)>|
            #![trigger head.len(), batched(rs, names, names.len(), siblings, builtins, p, shown)]
            batched(rs, names, names.len(), siblings, builtins, p, shown) matches Ok(b) && module_text(
                rs,
                names,
                builtins,
                p,
                shown,
            )->Ok_0 == head + const_lines(b.table, b.table.len()) + b.references + "\"#;\n\n"@ + b.functions
                && batch_signatures(rs, names, names.len(), name_set(builtins)) == Ok::<
                Seq<(Seq<char>, Seq<Seq<char>>)>,
                Seq<char>,
            >(siblings),
{
    let siblings = batch_signatures(rs, names, names.len(), name_set(builtins))->Ok_0;
    let b = batched(rs, names, names.len(), siblings, builtins, p, shown)->Ok_0;
    let text = module_text(rs, names, builtins, p, shown)->Ok_0;
    let tail = const_lines(b.table, b.table.len()) + b.references + "\"#;\n\n"@ + b.functions;
    let head = text.take(text.len() - tail.len());
    assert(head.len() >= 0);
    assert(text =~= head + const_lines(b.table, b.table.len()) + b.references + "\"#;\n\n"@ + b.functions);
}

/// Each function of a batch can call every other one by the parameters that it is defined with.
pub proof fn law_batch_signatures(rs: Seq<Ref>, names: Seq<Seq<char>>, n: nat, bs: Set<Seq<char>>, i: int)
    requires
        0 <= i < n <= names.len(),
    ensures
        batch_signatures(rs, names, n, bs) matches Ok(ss) ==> ss.len() == n && (analyzed(
            ref_from(rs, names[i], 0)->Some_0.stmts,
            bs,
        ) matches Ok(a) && ss[i] == (a.name, a.params)),
    decreases n,
{
    if i < n - 1 {
        law_batch_signatures(rs, names, (n - 1) as nat, bs, i);
    } else if n > 1 {
        law_batch_signatures(rs, names, (n - 1) as nat, bs, 0);
    }
}

}

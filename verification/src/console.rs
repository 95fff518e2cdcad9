//! What `echo` and `assert` put on the console.

use vstd::prelude::*;

use crate::ast::{Arg, Expr, Name};
use crate::chars::{cat3, same};
use crate::message::{Error, Fault};
use crate::value::{lemma_list_view, vals, Val, Value};

verus! {

/// A value that nests lists deeper than this is not shown.
pub const MAX_ECHO_NESTING: usize = 10_000;

/// How many general lists lie inside each other at most.
pub open spec fn list_depth(v: Val) -> nat
    decreases v, 0nat,
{
    match v {
        Val::List(xs) => 1 + list_depth_upto(xs, xs.len()),
        _ => 0,
    }
}

/// The greatest such depth among the first `n` of some values.
pub open spec fn list_depth_upto(xs: Seq<Val>, n: nat) -> nat
    decreases xs, n,
{
    if n == 0 || n > xs.len() {
        0
    } else {
        let here = list_depth(xs[n - 1]);
        let before = list_depth_upto(xs, (n - 1) as nat);
        if here > before {
            here
        } else {
            before
        }
    }
}

/// Whether a value nests general lists deeper than `limit`.
pub open spec fn nests(v: Val, limit: nat) -> bool {
    list_depth(v) > limit
}

spec fn weight(v: Val) -> nat
    decreases v, 0nat,
{
    match v {
        Val::List(xs) => 1 + weight_upto(xs, xs.len()),
        _ => 1,
    }
}

spec fn weight_upto(xs: Seq<Val>, n: nat) -> nat
    decreases xs, n,
{
    if n == 0 || n > xs.len() {
        0
    } else {
        weight(xs[n - 1]) + weight_upto(xs, (n - 1) as nat)
    }
}

/// One of the entries of a search, each with the levels that are left to it, nests too deep.
spec fn some_nests(stack: Seq<(&Value, usize)>) -> bool {
    exists|i: int| 0 <= i < stack.len() && entry_nests(#[trigger] stack[i])
}

spec fn entry_nests(e: (&Value, usize)) -> bool {
    nests(e.0@, e.1 as nat)
}

spec fn load(stack: Seq<(&Value, usize)>) -> nat
    decreases stack.len(),
{
    if stack.len() == 0 {
        0
    } else {
        weight(stack.last().0@) + load(stack.drop_last())
    }
}

/// Whether a value nests general lists deeper than `limit`.
pub fn nests_deeper_than(v: &Value, limit: usize) -> (r: bool)
    ensures
        r == nests(v@, limit as nat),
{
    let mut stack: Vec<(&Value, usize)> = Vec::new();
    stack.push((v, limit));
    proof {
        assert(some_nests(stack@) == nests(v@, limit as nat)) by {
            assert(stack@[0] == (v, limit));
            if nests(v@, limit as nat) {
                assert(entry_nests(stack@[0]));
            }
        }
    }
    loop
        invariant
            some_nests(stack@) == nests(v@, limit as nat),
        decreases load(stack@),
    {
        let ghost before = stack@;
        let (cur, left) = match stack.pop() {
            Some(e) => e,
            None => {
                return false;
            },
        };
        let ghost rest = stack@;
        assert(rest == before.drop_last());
        assert(before.last() == (cur, left));
        match cur {
            Value::List(xs) => {
                proof {
                    lemma_list_view(*xs);
                }
                if left == 0 {
                    assert(entry_nests(before[before.len() - 1]));
                    return true;
                }
                let ghost vs = vals(xs.0@);
                let mut k: usize = 0;
                while k < xs.0.len()
                    invariant
                        k <= xs.0@.len(),
                        vs == vals(xs.0@),
                        left > 0,
                        stack@.len() >= rest.len(),
                        load(stack@) <= load(rest) + weight_upto(vs, k as nat),
                        some_nests(stack@) == (some_nests(rest) || list_depth_upto(vs, k as nat)
                            >= left),
                    decreases xs.0@.len() - k,
                {
                    let x: &Value = &xs.0[k];
                    assert(vs[k as int] == x@);
                    match x {
                        Value::List(_) => {
                            let ghost was = stack@;
                            stack.push((x, left - 1));
                            proof {
                                lemma_some_nests_push(was, (x, (left - 1) as usize));
                                assert(stack@.drop_last() =~= was);
                                assert(x@ is List);
                            }
                        },
                        _ => {
                            assert(!(x@ is List));
                        },
                    }
                    assert(list_depth_upto(vs, k as nat + 1) == if list_depth(vs[k as int])
                        > list_depth_upto(vs, k as nat) {
                        list_depth(vs[k as int])
                    } else {
                        list_depth_upto(vs, k as nat)
                    });
                    k += 1;
                }
                proof {
                    lemma_some_nests_push(rest, (cur, left));
                    assert(rest.push((cur, left)) =~= before);
                }
            },
            _ => {
                proof {
                    lemma_some_nests_push(rest, (cur, left));
                    assert(rest.push((cur, left)) =~= before);
                }
            },
        }
    }
}

proof fn lemma_some_nests_push(s: Seq<(&Value, usize)>, e: (&Value, usize))
    ensures
        some_nests(s.push(e)) == (some_nests(s) || entry_nests(e)),
{
    let t = s.push(e);
    if some_nests(s) {
        let i = choose|i: int| 0 <= i < s.len() && entry_nests(#[trigger] s[i]);
        assert(t[i] == s[i]);
    }
    if entry_nests(e) {
        assert(t[s.len() as int] == e);
    }
    if some_nests(t) {
        let i = choose|i: int| 0 <= i < t.len() && entry_nests(#[trigger] t[i]);
        if i < s.len() {
            assert(s[i] == t[i]);
        }
    }
}

/// Whether one of some values nests too deep to be shown.
pub open spec fn too_deep(vs: Seq<Val>) -> bool {
    exists|i: int| 0 <= i < vs.len() && nests(#[trigger] vs[i], MAX_ECHO_NESTING as nat)
}

/// The failure where a value nests too deep to be shown.
pub open spec fn too_deep_fault() -> Fault {
    Fault::Eval(
        "echo value nests deeper than 10000 levels (upstream stack-exhausts converting this to an EchoString)"@,
    )
}

/// Whether one of some values nests too deep to be shown.
pub fn any_too_deep(vs: &Vec<Value>) -> (r: bool)
    ensures
        r == too_deep(vals(vs@)),
{
    let mut i: usize = 0;
    let ghost all = vals(vs@);
    while i < vs.len()
        invariant
            i <= vs@.len(),
            all == vals(vs@),
            forall|k: int| 0 <= k < i ==> !nests(#[trigger] all[k], MAX_ECHO_NESTING as nat),
        decreases vs@.len() - i,
    {
        if nests_deeper_than(&vs[i], MAX_ECHO_NESTING) {
            assert(nests(all[i as int], MAX_ECHO_NESTING as nat));
            return true;
        }
        i += 1;
    }
    false
}

/// The failure where a value nests too deep to be shown.
pub fn too_deep_error() -> (r: Error)
    ensures
        r@ == too_deep_fault(),
{
    Error::Eval(
        "echo value nests deeper than 10000 levels (upstream stack-exhausts converting this to an EchoString)".to_owned(),
    )
}

/// Some texts, mathematically.
pub open spec fn texts_of(ts: Seq<String>) -> Seq<Seq<char>> {
    Seq::new(ts.len(), |i: int| ts[i]@)
}

/// One argument as `echo` shows it.
pub open spec fn echo_part(arg: Arg, text: Seq<char>) -> Seq<char> {
    match arg.name {
        Some(n) => n@ + " = "@ + text,
        None => text,
    }
}

/// The first `n` arguments as `echo` shows them.
pub open spec fn echo_text(args: Seq<Arg>, texts: Seq<Seq<char>>, n: nat) -> Seq<char>
    decreases n,
{
    if n == 0 {
        Seq::empty()
    } else if n == 1 {
        echo_part(args[0], texts[0])
    } else {
        echo_text(args, texts, (n - 1) as nat) + ", "@ + echo_part(args[n - 1], texts[n - 1])
    }
}

/// How many arguments have a text.
pub open spec fn shown_count(args: Seq<Arg>, texts: Seq<Seq<char>>) -> nat {
    if args.len() < texts.len() {
        args.len()
    } else {
        texts.len()
    }
}

/// The line that `echo` makes of the texts of its arguments.
pub fn echo_line(args: &Vec<Arg>, texts: &Vec<String>) -> (r: String)
    ensures
        r@ == echo_text(args@, texts_of(texts@), shown_count(args@, texts_of(texts@))),
{
    let mut out: String = String::new();
    let mut i: usize = 0;
    while i < args.len() && i < texts.len()
        invariant
            i <= args@.len(),
            i <= texts@.len(),
            out@ == echo_text(args@, texts_of(texts@), i as nat),
        decreases args@.len() - i,
    {
        let part: String = match &args[i].name {
            Some(n) => cat3(n.as_str(), " = ", texts[i].as_str()),
            None => texts[i].clone(),
        };
        if i == 0 {
            out = part;
        } else {
            out.append(", ");
            out.append(part.as_str());
        }
        i += 1;
    }
    out
}

/// The line of an `echo` from the values of its arguments and their texts; a failure where a
/// value nests too deep.
pub fn format_echo_line(args: &Vec<Arg>, vs: &Vec<Value>, texts: &Vec<String>) -> (r: Result<
    String,
    Error,
>)
    ensures
        match r {
            Ok(s) => !too_deep(vals(vs@)) && s@ == echo_text(
                args@,
                texts_of(texts@),
                shown_count(args@, texts_of(texts@)),
            ),
            Err(e) => too_deep(vals(vs@)) && e@ == too_deep_fault(),
        },
{
    if any_too_deep(vs) {
        Err(too_deep_error())
    } else {
        Ok(echo_line(args, texts))
    }
}

/// One named or nameless text as `echo` shows it.
pub open spec fn pair_part(name: Option<Seq<char>>, text: Seq<char>) -> Seq<char> {
    match name {
        Some(n) => n + " = "@ + text,
        None => text,
    }
}

/// The first `n` named or nameless texts as `echo` shows them.
pub open spec fn pairs_text(names: Seq<Option<Seq<char>>>, texts: Seq<Seq<char>>, n: nat) -> Seq<char>
    decreases n,
{
    if n == 0 {
        Seq::empty()
    } else if n == 1 {
        pair_part(names[0], texts[0])
    } else {
        pairs_text(names, texts, (n - 1) as nat) + ", "@ + pair_part(names[n - 1], texts[n - 1])
    }
}

/// Some optional names, mathematically.
pub open spec fn opt_names(ns: Seq<Option<Name>>) -> Seq<Option<Seq<char>>> {
    Seq::new(
        ns.len(),
        |i: int|
            match ns[i] {
                Some(n) => Some(n@),
                None => None,
            },
    )
}

/// The line of an `echo` of native code from names, values and the texts of the values; a failure
/// where a value nests too deep.
pub fn format_echo_pairs(names: &Vec<Option<Name>>, vs: &Vec<Value>, texts: &Vec<String>) -> (r: Result<
    String,
    Error,
>)
    requires
        names@.len() == texts@.len(),
    ensures
        match r {
            Ok(s) => !too_deep(vals(vs@)) && s@ == pairs_text(
                opt_names(names@),
                texts_of(texts@),
                names@.len(),
            ),
            Err(e) => too_deep(vals(vs@)) && e@ == too_deep_fault(),
        },
{
    if any_too_deep(vs) {
        return Err(too_deep_error());
    }
    let ghost ns = opt_names(names@);
    let mut out: String = String::new();
    let mut i: usize = 0;
    while i < names.len()
        invariant
            i <= names@.len(),
            names@.len() == texts@.len(),
            ns == opt_names(names@),
            out@ == pairs_text(ns, texts_of(texts@), i as nat),
        decreases names@.len() - i,
    {
        let part: String = match &names[i] {
            Some(n) => cat3(n.as_str(), " = ", texts[i].as_str()),
            None => texts[i].clone(),
        };
        if i == 0 {
            out = part;
        } else {
            out.append(", ");
            out.append(part.as_str());
        }
        i += 1;
    }
    Ok(out)
}

/// The condition and the message of an assertion, found so far.
pub struct AssertParts {
    pub cond: Option<Expr>,
    pub msg: Option<Expr>,
    pub positional: nat,
}

/// The parts of the first `n` arguments of an assertion. A named part beats the positional one
/// of the same meaning; unknown names and further arguments are dropped.
pub open spec fn assert_parts(args: Seq<Arg>, n: nat) -> AssertParts
    decreases n,
{
    if n == 0 {
        AssertParts { cond: None, msg: None, positional: 0 }
    } else {
        let p = assert_parts(args, (n - 1) as nat);
        let arg = args[n - 1];
        match arg.name {
            Some(name) => if name@ == "condition"@ {
                AssertParts { cond: Some(arg.value), ..p }
            } else if name@ == "message"@ {
                AssertParts { msg: Some(arg.value), ..p }
            } else {
                p
            },
            None => AssertParts {
                cond: if p.positional == 0 && p.cond is None {
                    Some(arg.value)
                } else {
                    p.cond
                },
                msg: if p.positional == 1 && p.msg is None {
                    Some(arg.value)
                } else {
                    p.msg
                },
                positional: p.positional + 1,
            },
        }
    }
}

/// An optional expression, mathematically.
pub open spec fn opt_expr(e: Option<&Expr>) -> Option<Expr> {
    match e {
        Some(x) => Some(*x),
        None => None,
    }
}

/// The condition and the message of an assertion.
pub fn split_assert_args<'a>(args: &'a Vec<Arg>) -> (r: (Option<&'a Expr>, Option<&'a Expr>))
    ensures
        opt_expr(r.0) == assert_parts(args@, args@.len()).cond,
        opt_expr(r.1) == assert_parts(args@, args@.len()).msg,
{
    let mut cond: Option<&'a Expr> = None;
    let mut msg: Option<&'a Expr> = None;
    let mut positional: usize = 0;
    let mut i: usize = 0;
    while i < args.len()
        invariant
            i <= args@.len(),
            positional <= i,
            opt_expr(cond) == assert_parts(args@, i as nat).cond,
            opt_expr(msg) == assert_parts(args@, i as nat).msg,
            positional == assert_parts(args@, i as nat).positional,
        decreases args@.len() - i,
    {
        let arg: &'a Arg = &args[i];
        match &arg.name {
            Some(name) => {
                if same(name.as_str(), "condition") {
                    cond = Some(&arg.value);
                } else if same(name.as_str(), "message") {
                    msg = Some(&arg.value);
                }
            },
            None => {
                if positional == 0 && cond.is_none() {
                    cond = Some(&arg.value);
                }
                if positional == 1 && msg.is_none() {
                    msg = Some(&arg.value);
                }
                positional += 1;
            },
        }
        i += 1;
    }
    (cond, msg)
}

/// The failure of an assertion, from the text of its message and the shown condition.
pub open spec fn assert_fault(message: Option<Seq<char>>, shown: Seq<char>) -> Fault {
    match message {
        Some(m) => Fault::Assert("assertion failed: "@ + m + " [assert("@ + shown + ")]"@),
        None => Fault::Assert("assertion failed [assert("@ + shown + ")]"@),
    }
}

/// The failure of an assertion, from the text of its message and the shown condition.
pub fn assert_error(message: Option<&str>, shown: &str) -> (r: Error)
    ensures
        r@ == assert_fault(
            match message {
                Some(m) => Some(m@),
                None => None,
            },
            shown@,
        ),
{
    match message {
        Some(m) => {
            let head: String = cat3("assertion failed: ", m, " [assert(");
            Error::Assert(cat3(head.as_str(), shown, ")]"))
        },
        None => {
            Error::Assert(cat3("assertion failed [assert(", shown, ")]"))
        },
    }
}

/// An `echo` shows the texts of its arguments in their order, with commas between them, and before one that has a
/// name its name and an equals sign.
pub proof fn law_echo_lines(args: Seq<Arg>, texts: Seq<Seq<char>>, n: nat)
    requires
        0 < n <= args.len(),
        n <= texts.len(),
    ensures
        ({
            let last = match args[n - 1].name {
                Some(name) => name@ + " = "@ + texts[n - 1],
                None => texts[n - 1],
            };
            echo_text(args, texts, n) == if n == 1 {
                last
            } else {
                echo_text(args, texts, (n - 1) as nat) + ", "@ + last
            }
        }),
        echo_text(args, texts, 0).len() == 0,
{
}

/// The `echo` of native code shows the same as that of the evaluator.
pub proof fn law_echoes_agree(args: Seq<Arg>, names: Seq<Option<Seq<char>>>, texts: Seq<Seq<char>>, n: nat)
    requires
        n <= args.len(),
        n <= names.len(),
        n <= texts.len(),
        forall|i: int|
            0 <= i < n ==> #[trigger] names[i] == match args[i].name {
                Some(name) => Some(name@),
                None => None,
            },
    ensures
        pairs_text(names, texts, n) == echo_text(args, texts, n),
    decreases n,
{
    if n > 0 {
        law_echoes_agree(args, names, texts, (n - 1) as nat);
        assert(names[n - 1] == match args[n - 1].name {
            Some(name) => Some(name@),
            None => None,
        });
        assert(names[0] == match args[0].name {
            Some(name) => Some(name@),
            None => None,
        });
    }
}

/// An assertion takes its condition and its message by their names, wherever they stand and whatever else is given,
/// the last of a name; and by their places where nothing has a name: the first argument is the condition, the
/// second one the message.
pub proof fn law_assertion_parts(args: Seq<Arg>, n: nat)
    requires
        n <= args.len(),
    ensures
        n > 0 && (args[n - 1].name matches Some(name) && name@ == "condition"@) ==> assert_parts(args, n).cond == Some(
            args[n - 1].value,
        ) && assert_parts(args, n).msg == assert_parts(args, (n - 1) as nat).msg,
        n > 0 && (args[n - 1].name matches Some(name) && name@ == "message"@) ==> assert_parts(args, n).msg == Some(
            args[n - 1].value,
        ) && assert_parts(args, n).cond == assert_parts(args, (n - 1) as nat).cond,
        (forall|i: int| 0 <= i < n ==> (#[trigger] args[i]).name is None) ==> {
            &&& assert_parts(args, n).positional == n
            &&& assert_parts(args, n).cond == if n > 0 {
                Some(args[0].value)
            } else {
                None
            }
            &&& assert_parts(args, n).msg == if n > 1 {
                Some(args[1].value)
            } else {
                None
            }
        },
        n > 0 && args[n - 1].name is None && assert_parts(args, (n - 1) as nat).cond is Some ==> assert_parts(args, n).cond
            == assert_parts(args, (n - 1) as nat).cond,
    decreases n,
{
    reveal_strlit("condition");
    reveal_strlit("message");
    assert("condition"@.len() == 9 && "message"@.len() == 7);
    if n > 0 {
        law_assertion_parts(args, (n - 1) as nat);
    }
}

/// A failed assertion says that it failed, what its message is where it has one, and what was asserted.
pub proof fn law_failed_assertions(message: Option<Seq<char>>, shown: Seq<char>)
    ensures
        message matches Some(m) ==> assert_fault(message, shown) == Fault::Assert(
            "assertion failed: "@ + m + " [assert("@ + shown + ")]"@,
        ),
        message is None ==> assert_fault(message, shown) == Fault::Assert("assertion failed [assert("@ + shown + ")]"@),
{
}

/// Lists nest one deeper than the deepest list among their elements, and only values that nest deeper than ten
/// thousand are too deep to be shown.
pub proof fn law_nesting(xs: Seq<Val>, i: int, v: Val)
    ensures
        0 <= i < xs.len() ==> list_depth(Val::List(xs)) > list_depth(xs[i]),
        list_depth(Val::List(seq![v])) == list_depth(v) + 1,
        !(v is List) ==> list_depth(v) == 0,
        too_deep(seq![v]) <==> list_depth(v) > 10_000,
{
    if 0 <= i < xs.len() {
        lemma_list_depth(xs, xs.len(), i);
    }
    let one = seq![v];
    assert(one[0] == v);
    assert(list_depth_upto(one, 0) == 0);
    assert(list_depth_upto(one, 1) == list_depth(v));
    if list_depth(v) > 10_000 {
        assert(nests(one[0], MAX_ECHO_NESTING as nat));
    }
}

proof fn lemma_list_depth(xs: Seq<Val>, n: nat, i: int)
    requires
        0 <= i < n <= xs.len(),
    ensures
        list_depth(xs[i]) <= list_depth_upto(xs, n),
    decreases n,
{
    if i < n - 1 {
        lemma_list_depth(xs, (n - 1) as nat, i);
    }
}

}

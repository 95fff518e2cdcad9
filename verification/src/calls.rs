//! Matching the arguments of a call to the parameters of the callee.

use vstd::prelude::*;

use crate::ast::{is_special, same_name, special, Arg, Expr, Name, Parameter};

verus! {

/// The argument that fills each parameter, where one does.
pub open spec fn exprs_of(slots: Seq<Option<&Expr>>) -> Seq<Option<Expr>> {
    Seq::new(
        slots.len(),
        |i: int|
            match slots[i] {
                Some(e) => Some(*e),
                None => None,
            },
    )
}

/// Named expressions, mathematically.
pub open spec fn named_exprs(s: Seq<(Name, &Expr)>) -> Seq<(Seq<char>, Expr)> {
    Seq::new(s.len(), |i: int| (s[i].0@, *s[i].1))
}

/// How a call's arguments fall: what fills each parameter, and what is bound beside them.
pub struct Matched {
    pub slots: Seq<Option<Expr>>,
    pub extra: Seq<(Seq<char>, Expr)>,
}

/// The first parameter from `i` on that nothing fills yet.
pub open spec fn unfilled_from(slots: Seq<Option<Expr>>, i: int) -> Option<int>
    decreases slots.len() - i,
{
    if i >= slots.len() {
        None
    } else if slots[i] is None {
        Some(i)
    } else {
        unfilled_from(slots, i + 1)
    }
}

/// The first parameter from `i` on with a given name.
pub open spec fn param_from(params: Seq<Parameter>, name: Seq<char>, i: int) -> Option<int>
    decreases params.len() - i,
{
    if i >= params.len() {
        None
    } else if params[i].name@ == name {
        Some(i)
    } else {
        param_from(params, name, i + 1)
    }
}

/// The match after one more argument. A positional argument takes the lowest parameter that is
/// still free, or is dropped; a named one takes its parameter, whatever was there; a `$`-argument
/// and a name that no parameter has are bound beside the parameters.
pub open spec fn matched_one(params: Seq<Parameter>, m: Matched, arg: Arg) -> Matched {
    match arg.name {
        None => match unfilled_from(m.slots, 0) {
            Some(i) => Matched { slots: m.slots.update(i, Some(arg.value)), extra: m.extra },
            None => m,
        },
        Some(name) => if special(name@) {
            Matched { slots: m.slots, extra: m.extra.push((name@, arg.value)) }
        } else {
            match param_from(params, name@, 0) {
                Some(i) => Matched { slots: m.slots.update(i, Some(arg.value)), extra: m.extra },
                None => Matched { slots: m.slots, extra: m.extra.push((name@, arg.value)) },
            }
        },
    }
}

/// The match of the first `n` arguments.
pub open spec fn matched(params: Seq<Parameter>, args: Seq<Arg>, n: nat) -> Matched
    decreases n,
{
    if n == 0 {
        Matched { slots: Seq::new(params.len(), |i: int| None), extra: Seq::empty() }
    } else {
        matched_one(params, matched(params, args, (n - 1) as nat), args[n - 1])
    }
}

fn find_unfilled(slots: &Vec<Option<&Expr>>) -> (r: Option<usize>)
    ensures
        match r {
            Some(i) => unfilled_from(exprs_of(slots@), 0) == Some(i as int) && i < slots@.len(),
            None => unfilled_from(exprs_of(slots@), 0) is None,
        },
{
    let mut i: usize = 0;
    while i < slots.len()
        invariant
            i <= slots@.len(),
            unfilled_from(exprs_of(slots@), 0) == unfilled_from(exprs_of(slots@), i as int),
        decreases slots@.len() - i,
    {
        if slots[i].is_none() {
            return Some(i);
        }
        i += 1;
    }
    None
}

/// The first parameter with a given name.
pub fn find_param(params: &Vec<Parameter>, name: &Name) -> (r: Option<usize>)
    ensures
        match r {
            Some(i) => param_from(params@, name@, 0) == Some(i as int) && i < params@.len(),
            None => param_from(params@, name@, 0) is None,
        },
{
    let mut i: usize = 0;
    while i < params.len()
        invariant
            i <= params@.len(),
            param_from(params@, name@, 0) == param_from(params@, name@, i as int),
        decreases params@.len() - i,
    {
        if same_name(&params[i].name, name) {
            return Some(i);
        }
        i += 1;
    }
    None
}

/// Matches the arguments of a call to the parameters, left to right.
pub fn fill_arg_slots<'a>(params: &Vec<Parameter>, args: &'a Vec<Arg>) -> (r: (
    Vec<Option<&'a Expr>>,
    Vec<(Name, &'a Expr)>,
))
    ensures
        exprs_of(r.0@) == matched(params@, args@, args@.len()).slots,
        named_exprs(r.1@) == matched(params@, args@, args@.len()).extra,
        r.0@.len() == params@.len(),
{
    let mut slots: Vec<Option<&'a Expr>> = Vec::new();
    let mut k: usize = 0;
    while k < params.len()
        invariant
            k <= params@.len(),
            slots@.len() == k,
            forall|j: int| 0 <= j < k ==> (#[trigger] slots@[j]) is None,
        decreases params@.len() - k,
    {
        slots.push(None);
        k += 1;
    }
    let mut extra: Vec<(Name, &'a Expr)> = Vec::new();
    assert(exprs_of(slots@) =~= matched(params@, args@, 0).slots);
    assert(named_exprs(extra@) =~= matched(params@, args@, 0).extra);
    let mut i: usize = 0;
    while i < args.len()
        invariant
            i <= args@.len(),
            slots@.len() == params@.len(),
            exprs_of(slots@) == matched(params@, args@, i as nat).slots,
            named_exprs(extra@) == matched(params@, args@, i as nat).extra,
        decreases args@.len() - i,
    {
        let arg: &'a Arg = &args[i];
        let ghost before = slots@;
        let ghost extra_before = extra@;
        match &arg.name {
            None => {
                match find_unfilled(&slots) {
                    Some(at) => {
                        slots.set(at, Some(&arg.value));
                        assert(exprs_of(slots@) =~= exprs_of(before).update(
                            at as int,
                            Some(arg.value),
                        ));
                    },
                    None => {},
                }
            },
            Some(name) => {
                if is_special(name.as_str()) {
                    extra.push((name.clone(), &arg.value));
                    assert(named_exprs(extra@) =~= named_exprs(extra_before).push(
                        (name@, arg.value),
                    ));
                } else {
                    match find_param(params, name) {
                        Some(at) => {
                            slots.set(at, Some(&arg.value));
                            assert(exprs_of(slots@) =~= exprs_of(before).update(
                                at as int,
                                Some(arg.value),
                            ));
                        },
                        None => {
                            extra.push((name.clone(), &arg.value));
                            assert(named_exprs(extra@) =~= named_exprs(extra_before).push(
                                (name@, arg.value),
                            ));
                        },
                    }
                }
            },
        }
        i += 1;
    }
    (slots, extra)
}

/// Whether a parameter name takes an argument.
pub open spec fn is_provided<T>(
    params: Seq<Parameter>,
    slots: Seq<Option<T>>,
    name: Seq<char>,
) -> bool {
    exists|i: int|
        0 <= i < params.len() && (#[trigger] params[i]).name@ == name && slots[i] is Some
}

/// Whether an earlier parameter of the same name took its default.
pub open spec fn is_taken<T>(params: Seq<Parameter>, slots: Seq<Option<T>>, i: int) -> bool {
    exists|j: int|
        0 <= j < i && (#[trigger] params[j]).name@ == params[i].name@ && slots[j] is None
}

/// Whether the default of a parameter counts: where no argument fills a parameter of its name, and
/// it is the first of that name.
pub open spec fn default_counts<T>(params: Seq<Parameter>, slots: Seq<Option<T>>, i: int) -> bool {
    !is_provided(params, slots, params[i].name@) && !is_taken(params, slots, i)
}

/// Whether the default of a parameter counts depends on which parameters are filled alone.
pub proof fn lemma_counts_alike<A, B>(
    params: Seq<Parameter>,
    a: Seq<Option<A>>,
    b: Seq<Option<B>>,
    i: int,
)
    requires
        a.len() == params.len(),
        b.len() == params.len(),
        0 <= i < params.len(),
        forall|k: int| 0 <= k < params.len() ==> a[k] is Some == #[trigger] b[k] is Some,
    ensures
        default_counts(params, a, i) == default_counts(params, b, i),
{
    let name = params[i].name@;
    if is_provided(params, a, name) {
        let k = choose|k: int|
            0 <= k < params.len() && (#[trigger] params[k]).name@ == name && a[k] is Some;
        assert(b[k] is Some);
    }
    if is_provided(params, b, name) {
        let k = choose|k: int|
            0 <= k < params.len() && (#[trigger] params[k]).name@ == name && b[k] is Some;
        assert(a[k] is Some);
    }
    if is_taken(params, a, i) {
        let k = choose|k: int|
            0 <= k < i && (#[trigger] params[k]).name@ == name && a[k] is None;
        assert(!(b[k] is Some));
    }
    if is_taken(params, b, i) {
        let k = choose|k: int|
            0 <= k < i && (#[trigger] params[k]).name@ == name && b[k] is None;
        assert(!(b[k] is Some));
        assert(a[k] is None);
    }
}

/// Whether the default of the parameter `at` counts.
pub(crate) fn default_holds<T>(params: &Vec<Parameter>, slots: &Vec<Option<T>>, at: usize) -> (r:
    bool)
    requires
        slots@.len() == params@.len(),
        at < params@.len(),
    ensures
        r == default_counts(params@, slots@, at as int),
{
    let mut i: usize = 0;
    while i < params.len()
        invariant
            i <= params@.len(),
            at < params@.len(),
            slots@.len() == params@.len(),
            forall|k: int|
                0 <= k < i ==> !((#[trigger] params@[k]).name@ == params@[at as int].name@ && (
                slots@[k] is Some || k < at)),
        decreases params@.len() - i,
    {
        if same_name(&params[i].name, &params[at].name) {
            assert(params@[i as int].name@ == params@[at as int].name@);
            if slots[i].is_some() {
                return false;
            }
            if i < at {
                return false;
            }
        }
        i += 1;
    }
    true
}

/// Positional arguments alone fill the parameters from the left, and the rest of them are dropped.
pub proof fn law_positional_arguments_fill_in_order(params: Seq<Parameter>, args: Seq<Arg>, n: nat)
    requires
        n <= args.len(),
        forall|i: int| 0 <= i < args.len() ==> (#[trigger] args[i]).name is None,
    ensures
        matched(params, args, n).extra == Seq::<(Seq<char>, Expr)>::empty(),
        matched(params, args, n).slots.len() == params.len(),
        forall|i: int|
            0 <= i < params.len() ==> (#[trigger] matched(params, args, n).slots[i]) == if i < n {
                Some(args[i].value)
            } else {
                None
            },
    decreases n,
{
    if n > 0 {
        law_positional_arguments_fill_in_order(params, args, (n - 1) as nat);
        let m = matched(params, args, (n - 1) as nat);
        lemma_unfilled(m.slots, 0, n - 1);
    }
}

proof fn lemma_unfilled(slots: Seq<Option<Expr>>, i: int, n: int)
    requires
        0 <= i <= n,
        forall|k: int| i <= k < n && k < slots.len() ==> (#[trigger] slots[k]) is Some,
        n < slots.len() ==> slots[n] is None,
    ensures
        unfilled_from(slots, i) == if n < slots.len() {
            Some(n)
        } else {
            None
        },
    decreases n - i,
{
    if i < n && i < slots.len() {
        lemma_unfilled(slots, i + 1, n);
    }
}

/// A named argument wins over everything that filled its parameter before it.
pub proof fn law_named_argument_overwrites(params: Seq<Parameter>, m: Matched, arg: Arg, i: int)
    requires
        m.slots.len() == params.len(),
        arg.name matches Some(n) && !special(n@) && param_from(params, n@, 0) == Some(i),
        0 <= i < params.len(),
    ensures
        matched_one(params, m, arg).slots[i] == Some(arg.value),
        matched_one(params, m, arg).extra == m.extra,
{
}

}

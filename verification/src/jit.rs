//! Compiled functions: what a compiler of numeric functions is handed, and what becomes of its
//! answers.

use vstd::prelude::*;

use crate::ast::Name;
use crate::host::{outcome_value, Answer, JitOutcome, Reply};
use crate::islands::{isles, uses_ok, visible_constants, Island};
use crate::machine::{Call, FnDef};
use crate::resolve::{jit_consts, jit_defs, JitConst, JitDef};
use crate::value::{Val, Value};

verus! {

/// Compiled functions. What one gives must be, bit for bit, what interpreting its body gives: to ask
/// can change how fast an evaluation is, never what it gives.
pub trait NumericJit {
    /// What a function gives for some arguments, where it is compiled for their shape, and how many
    /// numbers the random stream has given by then.
    fn call_numeric(&self, name: &Name, args: &Vec<Value>, draws: u64) -> (r: Option<
        (JitOutcome, u64),
    >);
}

/// Compiles the functions of a program, once all of them are known.
pub trait NumericJitFactory {
    /// What it compiles to.
    type Jit: NumericJit;

    /// Compiles the functions that it can; nothing where there are none, or where it is not enabled.
    /// A body that reads a constant may take its value in.
    fn compile<'a>(
        &self,
        defs: &Vec<JitDef<'a>>,
        consts: &Vec<JitConst<'a>>,
        enabled: bool,
    ) -> (r: Option<Self::Jit>);
}

/// What a run is answered where it offered a call: the value, or that the call was not taken.
pub open spec fn offered(taken: Option<(JitOutcome, u64)>, draws: u64) -> Answer {
    match taken {
        Some((o, after)) => Answer::Compiled { value: Some(outcome_value(o)), draws: after },
        None => Answer::Compiled { value: None, draws },
    }
}

/// The answer to a run that offered a call, from what the compiled functions said.
pub fn answer_offer(taken: Option<(JitOutcome, u64)>, draws: u64) -> (r: Reply)
    ensures
        r@ == offered(taken, draws),
{
    match taken {
        Some((o, after)) => Reply::Compiled { outcome: Some(o), draws: after },
        None => Reply::Compiled { outcome: None, draws },
    }
}

/// Offers a call to the compiled functions: by its name, with its values. Without them, or without a
/// name, it is not taken.
pub fn offer<'a, J: NumericJit>(jit: &Option<J>, call: &Call<'a>, draws: u64) -> (r: Reply)
    ensures
        match (*jit, call.name) {
            (Some(j), Some(n)) => exists|taken: Option<(JitOutcome, u64)>|
                #[trigger] call_ensures(J::call_numeric, (&j, n, &call.vals, draws), taken) && r@
                    == offered(taken, draws),
            _ => r@ == offered(None, draws),
        },
{
    match (jit, call.name) {
        (Some(j), Some(n)) => {
            let taken: Option<(JitOutcome, u64)> = j.call_numeric(n, &call.vals, draws);
            answer_offer(taken, draws)
        },
        _ => answer_offer(None, draws),
    }
}

/// Some functions as they are handed to a compiler.
pub open spec fn offers_functions<'a>(defs: Seq<JitDef<'a>>, functions: Seq<FnDef<'a>>) -> bool {
    &&& defs.len() == functions.len()
    &&& forall|i: int|
        0 <= i < defs.len() ==> (#[trigger] defs[i]).name == functions[i].name && defs[i].params
            == functions[i].params && defs[i].body == functions[i].body
}

/// Compiles a program: the compiler is handed all its functions, and the constants that the root
/// file sees.
pub fn compile_functions<'a, F: NumericJitFactory>(
    factory: &F,
    functions: &Vec<FnDef<'a>>,
    islands: &Vec<Island<'a>>,
    enabled: bool,
) -> (r: Option<F::Jit>)
    requires
        uses_ok(isles(islands@)),
    ensures
        exists|defs: &Vec<JitDef<'a>>, consts: &Vec<JitConst<'a>>|
            {
                &&& offers_functions(defs@, functions@)
                &&& Seq::new(consts@.len(), |i: int| (consts@[i].name@, *consts@[i].value))
                    == visible_constants(isles(islands@))
                &&& #[trigger] call_ensures(F::compile, (factory, defs, consts, enabled), r)
            },
{
    let defs: Vec<JitDef<'a>> = jit_defs(functions);
    let consts: Vec<JitConst<'a>> = jit_consts(islands);
    factory.compile(&defs, &consts, enabled)
}

/// A compiled call that takes the offer answers with its outcome and the numbers it has drawn; one that declines answers
/// with no value and has drawn nothing. A number, a truth value or a vector that comes out stays what it is.
pub proof fn law_offers(o: JitOutcome, after: u64, draws: u64)
    ensures
        offered(None, draws) == (Answer::Compiled { value: None, draws }),
        offered(Some((o, after)), draws) matches Answer::Compiled { value: Some(v), draws: d } && d == after && match o {
            JitOutcome::Num(n) => v == Val::Num(n),
            JitOutcome::Bool(b) => v == Val::Bool(b),
            JitOutcome::Vec(xs) => v == Val::NumList(xs@),
            JitOutcome::Nested(w) => v == w@,
        },
{
}

}

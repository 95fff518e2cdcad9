//! What the bodies of modules do, as far as the module calls of a run can tell: whatever it is, a call
//! gives back what it took, and the compiled modules that ran to their end only grow in number.

use vstd::prelude::*;

use crate::host::Answer;
use crate::islands::Locals;
use crate::machine::{Job, State};
use crate::modules::{
    begun, counted, interpreted_ended, law_calls_balance, law_native_runs_only_grow, native_ended,
    unstacked, Activation, Shared, Start,
};
use crate::native::Given;
use crate::num::FloatOp;

verus! {

/// Something that a body does.
pub enum Act {
    /// A module is called; what its body does is done, until it ends, however it ends.
    Call {
        me: Activation,
        name: Seq<char>,
        args: Seq<Given>,
        thunks: Option<Seq<u64>>,
        native: bool,
        body: Seq<Act>,
    },
    /// A compiled body registers local modules, which stay for as long as it runs.
    Register(Locals),
    /// An interpreted block is run, with local modules of its own.
    Block(Locals, Seq<Act>),
    /// A compiled module is noted to have run to its end.
    Note,
    /// Expressions are evaluated. Whatever else they change, the modules that run stay.
    Evaluate(State),
}

/// What module calls are made with.
pub struct Means {
    pub combinators: Seq<Seq<char>>,
    pub unit: spec_fn(FloatOp, u64, u64) -> u64,
    pub host: spec_fn(Job, u64, Seq<Seq<char>>) -> Answer,
    pub fuel: nat,
}

/// After something that a body does. Only a compiled body registers local modules outside a block.
pub open spec fn act_done(m: Shared, s: State, a: Act, compiled: bool, w: Means) -> (Shared, State)
    decreases a, 0nat,
{
    match a {
        Act::Call { me, name, args, thunks, native, body } => {
            let (d, t, r) = begun(
                m,
                s,
                me,
                name,
                args,
                thunks,
                native,
                w.combinators,
                w.unit,
                w.host,
                w.fuel,
            );
            match r {
                Ok(Start::Native(_, mark)) => {
                    let (e, u) = acts_done(d, t, body, body.len(), true, w);
                    (native_ended(e, mark), unstacked(u))
                },
                Ok(Start::Interpret { .. }) => {
                    let (e, u) = acts_done(d, t, body, body.len(), false, w);
                    (interpreted_ended(e), unstacked(u))
                },
                Ok(Start::Builtin(_)) => acts_done(d, t, body, body.len(), false, w),
                Err(_) => (d, t),
            }
        },
        Act::Register(ls) => if compiled {
            (Shared { locals: m.locals.push(ls), ..m }, s)
        } else {
            (m, s)
        },
        Act::Block(ls, body) => {
            let inside = Shared { locals: m.locals.push(ls), ..m };
            let (e, u) = acts_done(inside, s, body, body.len(), false, w);
            (Shared { locals: e.locals.drop_last(), ..e }, u)
        },
        Act::Note => (Shared { runs: counted(m.runs), ..m }, s),
        Act::Evaluate(t) => (m, State { modules: s.modules, ..t }),
    }
}

/// After the first `n` things that a body does.
pub open spec fn acts_done(
    m: Shared,
    s: State,
    acts: Seq<Act>,
    n: nat,
    compiled: bool,
    w: Means,
) -> (Shared, State)
    decreases acts, n,
{
    if n == 0 || n > acts.len() {
        (m, s)
    } else {
        let (e, t) = acts_done(m, s, acts, (n - 1) as nat, compiled, w);
        act_done(e, t, acts[n - 1], compiled, w)
    }
}

/// Whether what is held is what was held before: the nesting, the frames of children and the running
/// modules are the same; local modules are only added, and none is where a body is interpreted.
pub open spec fn held(m: Shared, s: State, e: Shared, t: State, compiled: bool) -> bool {
    &&& e.depth == m.depth
    &&& e.native_depth == m.native_depth
    &&& e.frames == m.frames
    &&& t.modules == s.modules
    &&& m.locals.is_prefix_of(e.locals)
    &&& !compiled ==> e.locals == m.locals
}

/// A call of a module gives back what it took, whatever its body does and however it ends: after it, the
/// nesting, the frames of children, the local modules and the running modules are as they were before.
pub proof fn law_a_call_gives_back_what_it_took(
    m: Shared,
    s: State,
    me: Activation,
    name: Seq<char>,
    args: Seq<Given>,
    thunks: Option<Seq<u64>>,
    native: bool,
    body: Seq<Act>,
    compiled: bool,
    w: Means,
)
    ensures
        ({
            let (e, t) = act_done(
                m,
                s,
                Act::Call { me, name, args, thunks, native, body },
                compiled,
                w,
            );
            held(m, s, e, t, false)
        }),
    decreases body, body.len() + 1,
{
    let (d, t, r) = begun(
        m,
        s,
        me,
        name,
        args,
        thunks,
        native,
        w.combinators,
        w.unit,
        w.host,
        w.fuel,
    );
    let inner = r matches Ok(Start::Native(_, _));
    let (e, u) = if r is Err {
        (d, t)
    } else {
        acts_done(d, t, body, body.len(), inner, w)
    };
    if r is Ok {
        law_bodies_keep_what_is_held(d, t, body, body.len(), inner, w);
    }
    law_calls_balance(
        m,
        s,
        me,
        name,
        args,
        thunks,
        native,
        w.combinators,
        w.unit,
        w.host,
        w.fuel,
        e,
        u,
    );
    assert(m.locals.is_prefix_of(m.locals));
}

/// What a body does keeps what is held, whatever it is.
pub proof fn law_bodies_keep_what_is_held(
    m: Shared,
    s: State,
    acts: Seq<Act>,
    n: nat,
    compiled: bool,
    w: Means,
)
    requires
        n <= acts.len(),
    ensures
        ({
            let (e, t) = acts_done(m, s, acts, n, compiled, w);
            held(m, s, e, t, compiled)
        }),
    decreases acts, n,
{
    if n > 0 {
        law_bodies_keep_what_is_held(m, s, acts, (n - 1) as nat, compiled, w);
        let (e, t) = acts_done(m, s, acts, (n - 1) as nat, compiled, w);
        let (g, u) = act_done(e, t, acts[n - 1], compiled, w);
        match acts[n - 1] {
            Act::Call { me, name, args, thunks, native, body } => {
                law_a_call_gives_back_what_it_took(
                    e,
                    t,
                    me,
                    name,
                    args,
                    thunks,
                    native,
                    body,
                    compiled,
                    w,
                );
            },
            Act::Block(ls, body) => {
                let inside = Shared { locals: e.locals.push(ls), ..e };
                law_bodies_keep_what_is_held(inside, t, body, body.len(), false, w);
                assert(g.locals =~= e.locals);
            },
            _ => {},
        }
        assert(m.locals.is_prefix_of(g.locals));
    } else {
        assert(m.locals.is_prefix_of(m.locals));
    }
}

/// Whether something that a body does notes a run to the end.
pub open spec fn act_notes(a: Act) -> bool
    decreases a, 0nat,
{
    match a {
        Act::Call { body, .. } => acts_note(body, body.len()),
        Act::Block(_, body) => acts_note(body, body.len()),
        Act::Note => true,
        _ => false,
    }
}

/// Whether one of the first `n` things that a body does notes a run to the end.
pub open spec fn acts_note(acts: Seq<Act>, n: nat) -> bool
    decreases acts, n,
{
    if n == 0 || n > acts.len() {
        false
    } else {
        acts_note(acts, (n - 1) as nat) || act_notes(acts[n - 1])
    }
}

/// Of two readings of the number of compiled modules that have run to their end, the later is no smaller,
/// whatever was done between them, and it is the same where none was noted.
pub proof fn law_later_readings_are_no_smaller(
    m: Shared,
    s: State,
    acts: Seq<Act>,
    n: nat,
    compiled: bool,
    w: Means,
)
    requires
        n <= acts.len(),
    ensures
        acts_done(m, s, acts, n, compiled, w).0.runs >= m.runs,
        !acts_note(acts, n) ==> acts_done(m, s, acts, n, compiled, w).0.runs == m.runs,
    decreases acts, n,
{
    if n > 0 {
        law_later_readings_are_no_smaller(m, s, acts, (n - 1) as nat, compiled, w);
        let (e, t) = acts_done(m, s, acts, (n - 1) as nat, compiled, w);
        lemma_an_act_only_adds_runs(e, t, acts[n - 1], compiled, w);
    }
}

proof fn lemma_an_act_only_adds_runs(m: Shared, s: State, a: Act, compiled: bool, w: Means)
    ensures
        act_done(m, s, a, compiled, w).0.runs >= m.runs,
        !act_notes(a) ==> act_done(m, s, a, compiled, w).0.runs == m.runs,
    decreases a, 0nat,
{
    match a {
        Act::Call { me, name, args, thunks, native, body } => {
            let (d, t, r) = begun(
                m,
                s,
                me,
                name,
                args,
                thunks,
                native,
                w.combinators,
                w.unit,
                w.host,
                w.fuel,
            );
            law_native_runs_only_grow(
                m,
                s,
                me,
                name,
                args,
                thunks,
                native,
                w.combinators,
                w.unit,
                w.host,
                w.fuel,
                0,
            );
            let inner = r matches Ok(Start::Native(_, _));
            law_later_readings_are_no_smaller(d, t, body, body.len(), inner, w);
        },
        Act::Block(ls, body) => {
            let inside = Shared { locals: m.locals.push(ls), ..m };
            law_later_readings_are_no_smaller(inside, s, body, body.len(), false, w);
        },
        _ => {},
    }
}

}

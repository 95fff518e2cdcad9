//! Which functions of a program have a native version that may stand in for them.
//!
//! A native version was written against one source text of a function. It may stand in only
//! where the program defines the function with that text, where the functions it leans on are
//! defined with theirs, where no function of the program hides a builtin it leans on, and where
//! the constants baked into it have their values.

use vstd::prelude::*;

use crate::ast::{same_name, Name};
use crate::chars::cat3;
use crate::eval::defs;
use crate::machine::{def_from, names_of, Def, FnDef};
use crate::ops::slot_text;
use crate::scope::{meaning, scope_ok, store_ok, Scope, Store};
use crate::value::{Val, Value, ValueList};

verus! {

/// A native version: the function it stands in for, the fingerprint of the text it was written
/// against, the functions and builtins it leans on, and the constants baked into it.
#[derive(Debug)]
pub struct Entry {
    pub name: Name,
    pub fp: u64,
    pub deps: Vec<Name>,
    pub builtins: Vec<Name>,
    pub consts: Vec<(Name, u64)>,
    pub consts_v: Vec<(Name, Value)>,
}

/// The native versions there are, and the fingerprints of functions that are only leaned on.
#[derive(Debug)]
pub struct Registry {
    pub entries: Vec<Entry>,
    pub pins: Vec<(Name, u64)>,
}

/// A native version, mathematically.
pub struct Native {
    pub name: Seq<char>,
    pub fp: u64,
    pub deps: Seq<Seq<char>>,
    pub builtins: Seq<Seq<char>>,
    pub consts: Seq<(Seq<char>, u64)>,
    pub consts_v: Seq<(Seq<char>, Val)>,
}

impl View for Entry {
    type V = Native;

    open spec fn view(&self) -> Native {
        Native {
            name: self.name@,
            fp: self.fp,
            deps: names_of(self.deps@),
            builtins: names_of(self.builtins@),
            consts: Seq::new(self.consts@.len(), |i: int| (self.consts@[i].0@, self.consts@[i].1)),
            consts_v: Seq::new(
                self.consts_v@.len(),
                |i: int| (self.consts_v@[i].0@, self.consts_v@[i].1@),
            ),
        }
    }
}

/// A registry, mathematically.
pub struct Natives {
    pub entries: Seq<Native>,
    pub pins: Seq<(Seq<char>, u64)>,
}

impl View for Registry {
    type V = Natives;

    open spec fn view(&self) -> Natives {
        Natives {
            entries: Seq::new(self.entries@.len(), |i: int| self.entries@[i]@),
            pins: Seq::new(self.pins@.len(), |i: int| (self.pins@[i].0@, self.pins@[i].1)),
        }
    }
}

/// The native version for a name.
pub open spec fn entry_from(es: Seq<Native>, name: Seq<char>, i: int) -> Option<int>
    decreases es.len() - i,
{
    if i >= es.len() {
        None
    } else if es[i].name == name {
        Some(i)
    } else {
        entry_from(es, name, i + 1)
    }
}

/// The fingerprint that a name is pinned to.
pub open spec fn pin_from(ps: Seq<(Seq<char>, u64)>, name: Seq<char>, i: int) -> Option<u64>
    decreases ps.len() - i,
{
    if i >= ps.len() {
        None
    } else if ps[i].0 == name {
        Some(ps[i].1)
    } else {
        pin_from(ps, name, i + 1)
    }
}

/// The fingerprint that a function must have to be leaned on.
pub open spec fn anchor(r: Natives, name: Seq<char>) -> Option<u64> {
    match entry_from(r.entries, name, 0) {
        Some(i) => Some(r.entries[i].fp),
        None => pin_from(r.pins, name, 0),
    }
}

/// The native version that was written against the text of a definition.
pub open spec fn resolved(r: Natives, d: Def) -> Option<Native> {
    match entry_from(r.entries, d.name, 0) {
        Some(i) => if r.entries[i].fp == d.fp {
            Some(r.entries[i])
        } else {
            None
        },
        None => None,
    }
}

/// Why a function that is leaned on, from the `i`-th on, forbids a native version.
pub open spec fn dep_veto(r: Natives, ds: Seq<Def>, deps: Seq<Seq<char>>, i: int) -> Option<Seq<char>>
    decreases deps.len() - i,
{
    if i >= deps.len() {
        None
    } else {
        match def_from(ds, deps[i], 0) {
            None => Some("dep `"@ + deps[i] + "` is not defined in this program"@),
            Some(d) => if anchor(r, deps[i]) != Some(d.fp) {
                Some("dep `"@ + deps[i] + "` drifted from its pinned reference"@)
            } else {
                dep_veto(r, ds, deps, i + 1)
            },
        }
    }
}

/// Why a builtin that is leaned on, from the `i`-th on, forbids a native version.
pub open spec fn shadow_veto(ds: Seq<Def>, builtins: Seq<Seq<char>>, i: int) -> Option<Seq<char>>
    decreases builtins.len() - i,
{
    if i >= builtins.len() {
        None
    } else if def_from(ds, builtins[i], 0) is Some {
        Some("builtin `"@ + builtins[i] + "` is shadowed by a user function"@)
    } else {
        shadow_veto(ds, builtins, i + 1)
    }
}

/// Why what it leans on forbids a native version.
pub open spec fn veto(r: Natives, ds: Seq<Def>, e: Native) -> Option<Seq<char>> {
    match dep_veto(r, ds, e.deps, 0) {
        Some(t) => Some(t),
        None => shadow_veto(ds, e.builtins, 0),
    }
}

/// Whether constants are baked into a native version.
pub open spec fn guarded(e: Native) -> bool {
    e.consts.len() > 0 || e.consts_v.len() > 0
}

/// Whether a native version stands in for a definition before any constant is bound.
pub open spec fn wires(r: Natives, ds: Seq<Def>, d: Def) -> bool {
    match resolved(r, d) {
        Some(e) => !guarded(e) && veto(r, ds, e) is None,
        None => false,
    }
}

/// The names of those among the first `n` definitions for which a native version stands in before
/// any constant is bound.
pub open spec fn wired(r: Natives, ds: Seq<Def>, n: nat) -> Seq<Seq<char>>
    decreases n,
{
    if n == 0 {
        Seq::empty()
    } else if wires(r, ds, ds[n - 1]) {
        wired(r, ds, (n - 1) as nat).push(ds[n - 1].name)
    } else {
        wired(r, ds, (n - 1) as nat)
    }
}

/// Whether two values are the same to the bit, forms of vectors told apart. A function or an
/// object is the same as nothing.
pub open spec fn same_bits(a: Val, b: Val) -> bool
    decreases a,
{
    match (a, b) {
        (Val::Undef, Val::Undef) => true,
        (Val::Bool(x), Val::Bool(y)) => x == y,
        (Val::Num(x), Val::Num(y)) => x == y,
        (Val::Str(x), Val::Str(y)) => x == y,
        (Val::NumList(x), Val::NumList(y)) => x == y,
        (Val::List(x), Val::List(y)) => x.len() == y.len() && forall|i: int|
            0 <= i < x.len() ==> same_bits(#[trigger] x[i], y[i]),
        (
            Val::Range { start: a1, step: b1, end: c1 },
            Val::Range { start: a2, step: b2, end: c2 },
        ) => a1 == a2 && b1 == b2 && c1 == c2,
        _ => false,
    }
}

/// Whether the baked numbers are those bound in a scope.
pub open spec fn nums_hold(st: Seq<crate::scope::Cell>, s: Scope, cs: Seq<(Seq<char>, u64)>) -> bool {
    forall|i: int|
        0 <= i < cs.len() ==> meaning(st, s, (#[trigger] cs[i]).0) == Some(Val::Num(cs[i].1))
}

/// Whether the baked values are those bound in a scope.
pub open spec fn vals_hold(st: Seq<crate::scope::Cell>, s: Scope, cs: Seq<(Seq<char>, Val)>) -> bool {
    forall|i: int|
        0 <= i < cs.len() ==> (match meaning(st, s, (#[trigger] cs[i]).0) {
            Some(v) => same_bits(v, cs[i].1),
            None => false,
        })
}

/// Whether a native version with baked constants stands in for a definition.
pub open spec fn arms(
    r: Natives,
    ds: Seq<Def>,
    st: Seq<crate::scope::Cell>,
    globals: Seq<Scope>,
    d: Def,
) -> bool {
    match resolved(r, d) {
        Some(e) => guarded(e) && veto(r, ds, e) is None && d.home < globals.len() && nums_hold(
            st,
            globals[d.home as int],
            e.consts,
        ) && vals_hold(st, globals[d.home as int], e.consts_v),
        None => false,
    }
}

/// The names of those among the first `n` definitions for which a native version with baked
/// constants stands in.
pub open spec fn armed(
    r: Natives,
    ds: Seq<Def>,
    st: Seq<crate::scope::Cell>,
    globals: Seq<Scope>,
    n: nat,
) -> Seq<Seq<char>>
    decreases n,
{
    if n == 0 {
        Seq::empty()
    } else if arms(r, ds, st, globals, ds[n - 1]) {
        armed(r, ds, st, globals, (n - 1) as nat).push(ds[n - 1].name)
    } else {
        armed(r, ds, st, globals, (n - 1) as nat)
    }
}

/// Where the definition of a function stands.
pub fn position_of<'a>(functions: &Vec<FnDef<'a>>, name: &Name) -> (r: Option<usize>)
    ensures
        match r {
            Some(i) => i < functions@.len() && def_from(defs(functions@), name@, 0) == Some(
                functions@[i as int]@,
            ),
            None => def_from(defs(functions@), name@, 0) is None,
        },
{
    let ghost ds = defs(functions@);
    let mut i: usize = 0;
    while i < functions.len()
        invariant
            i <= functions@.len(),
            ds == defs(functions@),
            def_from(ds, name@, 0) == def_from(ds, name@, i as int),
        decreases functions@.len() - i,
    {
        if same_name(functions[i].name, name) {
            return Some(i);
        }
        i += 1;
    }
    None
}

/// Whether two values are the same to the bit, forms of vectors told apart.
pub fn value_bits_eq(a: &Value, b: &Value) -> (r: bool)
    ensures
        r == same_bits(a@, b@),
    decreases *a,
{
    match (a, b) {
        (Value::Undef, Value::Undef) => true,
        (Value::Bool(x), Value::Bool(y)) => *x == *y,
        (Value::Num(x), Value::Num(y)) => *x == *y,
        (Value::Str(x), Value::Str(y)) => same_name(x, y),
        (Value::NumList(x), Value::NumList(y)) => {
            if x.len() != y.len() {
                return false;
            }
            let mut i: usize = 0;
            while i < x.len()
                invariant
                    i <= x@.len(),
                    x@.len() == y@.len(),
                    forall|k: int| 0 <= k < i ==> #[trigger] x@[k] == y@[k],
                    a@ == Val::NumList(x@),
                    b@ == Val::NumList(y@),
                decreases x@.len() - i,
            {
                if x[i] != y[i] {
                    return false;
                }
                i += 1;
            }
            assert(x@ =~= y@);
            true
        },
        (Value::List(x), Value::List(y)) => {
            proof {
                crate::value::lemma_list_view(*x);
                crate::value::lemma_list_view(*y);
            }
            list_bits_eq(x, y, Ghost(*a))
        },
        (
            Value::Range { start: a1, step: b1, end: c1 },
            Value::Range { start: a2, step: b2, end: c2 },
        ) => *a1 == *a2 && *b1 == *b2 && *c1 == *c2,
        _ => false,
    }
}

fn list_bits_eq(x: &ValueList, y: &ValueList, Ghost(whole): Ghost<Value>) -> (r: bool)
    requires
        whole == Value::List(*x),
    ensures
        r == (crate::value::vals(x.0@).len() == crate::value::vals(y.0@).len() && forall|i: int|
            0 <= i < crate::value::vals(x.0@).len() ==> same_bits(
                #[trigger] crate::value::vals(x.0@)[i],
                crate::value::vals(y.0@)[i],
            )),
    decreases *x,
{
    let ghost xs = crate::value::vals(x.0@);
    let ghost ys = crate::value::vals(y.0@);
    if x.0.len() != y.0.len() {
        return false;
    }
    let mut i: usize = 0;
    while i < x.0.len()
        invariant
            i <= x.0@.len(),
            x.0@.len() == y.0@.len(),
            xs == crate::value::vals(x.0@),
            ys == crate::value::vals(y.0@),
            forall|k: int| 0 <= k < i ==> same_bits(#[trigger] xs[k], ys[k]),
        decreases x.0@.len() - i,
    {
        assert(decreases_to!(*x => x.0@[i as int]));
        if !value_bits_eq(&x.0[i], &y.0[i]) {
            assert(!same_bits(xs[i as int], ys[i as int]));
            return false;
        }
        i += 1;
    }
    true
}

impl Registry {
    fn find_entry(&self, name: &Name) -> (r: Option<usize>)
        ensures
            match r {
                Some(i) => i < self.entries@.len() && entry_from(self@.entries, name@, 0) == Some(
                    i as int,
                ),
                None => entry_from(self@.entries, name@, 0) is None,
            },
    {
        let mut i: usize = 0;
        while i < self.entries.len()
            invariant
                i <= self.entries@.len(),
                entry_from(self@.entries, name@, 0) == entry_from(self@.entries, name@, i as int),
            decreases self.entries@.len() - i,
        {
            assert(self@.entries[i as int] == self.entries@[i as int]@);
            if same_name(&self.entries[i].name, name) {
                return Some(i);
            }
            i += 1;
        }
        None
    }

    /// The fingerprint that a function must have to be leaned on.
    pub fn anchor_fp(&self, name: &Name) -> (r: Option<u64>)
        ensures
            r == anchor(self@, name@),
    {
        match self.find_entry(name) {
            Some(i) => {
                assert(self@.entries[i as int] == self.entries@[i as int]@);
                return Some(self.entries[i].fp);
            },
            None => {},
        }
        let mut i: usize = 0;
        while i < self.pins.len()
            invariant
                i <= self.pins@.len(),
                entry_from(self@.entries, name@, 0) is None,
                pin_from(self@.pins, name@, 0) == pin_from(self@.pins, name@, i as int),
            decreases self.pins@.len() - i,
        {
            assert(self@.pins[i as int] == (self.pins@[i as int].0@, self.pins@[i as int].1));
            if same_name(&self.pins[i].0, name) {
                return Some(self.pins[i].1);
            }
            i += 1;
        }
        None
    }

    /// The native version that was written against the text of a definition.
    pub fn resolve(&self, d: &FnDef) -> (r: Option<&Entry>)
        ensures
            match r {
                Some(e) => resolved(self@, d@) == Some(e@),
                None => resolved(self@, d@) is None,
            },
    {
        match self.find_entry(d.name) {
            Some(i) => {
                assert(self@.entries[i as int] == self.entries@[i as int]@);
                if self.entries[i].fp == d.fp {
                    Some(&self.entries[i])
                } else {
                    None
                }
            },
            None => None,
        }
    }

    /// Why what it leans on forbids a native version; nothing where it does not.
    pub fn guard_veto(&self, entry: &Entry, functions: &Vec<FnDef>) -> (r: Option<String>)
        ensures
            slot_text(r) == veto(self@, defs(functions@), entry@),
    {
        let ghost ds = defs(functions@);
        let ghost deps = entry@.deps;
        let ghost bs = entry@.builtins;
        let mut i: usize = 0;
        while i < entry.deps.len()
            invariant
                i <= entry.deps@.len(),
                ds == defs(functions@),
                deps == names_of(entry.deps@),
                deps == entry@.deps,
                dep_veto(self@, ds, deps, 0) == dep_veto(self@, ds, deps, i as int),
            decreases entry.deps@.len() - i,
        {
            let dep: &Name = &entry.deps[i];
            assert(deps[i as int] == dep@);
            match position_of(functions, dep) {
                None => {
                    return Some(cat3("dep `", dep.as_str(), "` is not defined in this program"));
                },
                Some(k) => {
                    let fits: bool = match self.anchor_fp(dep) {
                        Some(fp) => fp == functions[k].fp,
                        None => false,
                    };
                    if !fits {
                        return Some(
                            cat3("dep `", dep.as_str(), "` drifted from its pinned reference"),
                        );
                    }
                },
            }
            i += 1;
        }
        let mut k: usize = 0;
        while k < entry.builtins.len()
            invariant
                k <= entry.builtins@.len(),
                ds == defs(functions@),
                bs == names_of(entry.builtins@),
                bs == entry@.builtins,
                dep_veto(self@, ds, entry@.deps, 0) is None,
                shadow_veto(ds, bs, 0) == shadow_veto(ds, bs, k as int),
            decreases entry.builtins@.len() - k,
        {
            let b: &Name = &entry.builtins[k];
            assert(bs[k as int] == b@);
            if position_of(functions, b).is_some() {
                return Some(cat3("builtin `", b.as_str(), "` is shadowed by a user function"));
            }
            k += 1;
        }
        None
    }
}

/// The names of the functions for which a native version stands in before any constant is bound.
pub fn build_intrinsics(registry: &Registry, functions: &Vec<FnDef>) -> (r: Vec<Name>)
    ensures
        names_of(r@) == wired(registry@, defs(functions@), functions@.len()),
{
    let ghost ds = defs(functions@);
    let mut out: Vec<Name> = Vec::new();
    assert(names_of(out@) =~= Seq::<Seq<char>>::empty());
    let mut i: usize = 0;
    while i < functions.len()
        invariant
            i <= functions@.len(),
            ds == defs(functions@),
            names_of(out@) == wired(registry@, ds, i as nat),
        decreases functions@.len() - i,
    {
        let d: &FnDef = &functions[i];
        assert(ds[i as int] == d@);
        let fits: bool = match registry.resolve(d) {
            Some(e) => e.consts.len() == 0 && e.consts_v.len() == 0 && registry.guard_veto(
                e,
                functions,
            ).is_none(),
            None => false,
        };
        if fits {
            let ghost before = out@;
            out.push(d.name.clone());
            assert(names_of(out@) =~= names_of(before).push(d@.name));
        }
        i += 1;
    }
    out
}

fn numbers_hold(consts: &Vec<(Name, u64)>, store: &Store, scope: Scope) -> (r: bool)
    requires
        store_ok(store@),
        scope_ok(store@, scope),
    ensures
        r == nums_hold(
            store@,
            scope,
            Seq::new(consts@.len(), |i: int| (consts@[i].0@, consts@[i].1)),
        ),
{
    let ghost cs = Seq::new(consts@.len(), |i: int| (consts@[i].0@, consts@[i].1));
    let mut i: usize = 0;
    while i < consts.len()
        invariant
            i <= consts@.len(),
            store_ok(store@),
            scope_ok(store@, scope),
            cs == Seq::new(consts@.len(), |i: int| (consts@[i].0@, consts@[i].1)),
            forall|k: int|
                0 <= k < i ==> meaning(store@, scope, (#[trigger] cs[k]).0) == Some(
                    Val::Num(cs[k].1),
                ),
        decreases consts@.len() - i,
    {
        assert(cs[i as int] == (consts@[i as int].0@, consts@[i as int].1));
        let holds: bool = match scope.lookup_opt(store, consts[i].0.as_str()) {
            Some(Value::Num(n)) => n == consts[i].1,
            _ => false,
        };
        if !holds {
            assert(meaning(store@, scope, cs[i as int].0) != Some(Val::Num(cs[i as int].1)));
            return false;
        }
        i += 1;
    }
    true
}

fn values_hold(consts: &Vec<(Name, Value)>, store: &Store, scope: Scope) -> (r: bool)
    requires
        store_ok(store@),
        scope_ok(store@, scope),
    ensures
        r == vals_hold(
            store@,
            scope,
            Seq::new(consts@.len(), |i: int| (consts@[i].0@, consts@[i].1@)),
        ),
{
    let ghost cs = Seq::new(consts@.len(), |i: int| (consts@[i].0@, consts@[i].1@));
    let mut i: usize = 0;
    while i < consts.len()
        invariant
            i <= consts@.len(),
            store_ok(store@),
            scope_ok(store@, scope),
            cs == Seq::new(consts@.len(), |i: int| (consts@[i].0@, consts@[i].1@)),
            forall|k: int|
                0 <= k < i ==> (match meaning(store@, scope, (#[trigger] cs[k]).0) {
                    Some(v) => same_bits(v, cs[k].1),
                    None => false,
                }),
        decreases consts@.len() - i,
    {
        assert(cs[i as int] == (consts@[i as int].0@, consts@[i as int].1@));
        let holds: bool = match scope.lookup_opt(store, consts[i].0.as_str()) {
            Some(v) => value_bits_eq(&v, &consts[i].1),
            None => false,
        };
        if !holds {
            assert(match meaning(store@, scope, cs[i as int].0) {
                Some(v) => !same_bits(v, cs[i as int].1),
                None => true,
            });
            return false;
        }
        i += 1;
    }
    true
}

/// The names of the functions for which a native version with baked constants stands in: every
/// constant has its value, to the bit, at the top level of the function's file.
pub fn arm_guarded_intrinsics(
    registry: &Registry,
    functions: &Vec<FnDef>,
    store: &Store,
    globals: &Vec<Scope>,
) -> (r: Vec<Name>)
    requires
        store_ok(store@),
        forall|i: int| 0 <= i < globals@.len() ==> scope_ok(store@, #[trigger] globals@[i]),
    ensures
        names_of(r@) == armed(registry@, defs(functions@), store@, globals@, functions@.len()),
{
    let ghost ds = defs(functions@);
    let mut out: Vec<Name> = Vec::new();
    assert(names_of(out@) =~= Seq::<Seq<char>>::empty());
    let mut i: usize = 0;
    while i < functions.len()
        invariant
            i <= functions@.len(),
            ds == defs(functions@),
            store_ok(store@),
            forall|i: int| 0 <= i < globals@.len() ==> scope_ok(store@, #[trigger] globals@[i]),
            names_of(out@) == armed(registry@, ds, store@, globals@, i as nat),
        decreases functions@.len() - i,
    {
        let d: &FnDef = &functions[i];
        assert(ds[i as int] == d@);
        let fits: bool = match registry.resolve(d) {
            Some(e) => {
                if e.consts.len() == 0 && e.consts_v.len() == 0 {
                    false
                } else if registry.guard_veto(e, functions).is_some() {
                    false
                } else if d.home >= globals.len() {
                    false
                } else {
                    let scope: Scope = globals[d.home];
                    numbers_hold(&e.consts, store, scope) && values_hold(&e.consts_v, store, scope)
                }
            },
            None => false,
        };
        if fits {
            let ghost before = out@;
            out.push(d.name.clone());
            assert(names_of(out@) =~= names_of(before).push(d@.name));
        }
        i += 1;
    }
    out
}

/// How a native version relates to the library that a program loads.
#[derive(Debug, Clone, Copy, PartialEq, Eq, Structural)]
pub enum IntrinsicMatrixStatus {
    /// The library defines the name with the text the native version was written against.
    Matched,
    /// The library defines the name with another text.
    Changed,
    /// The library does not define the name.
    Missing,
}

/// One row of the comparison of the registry with a library.
#[derive(Debug)]
pub struct IntrinsicMatrixRow {
    /// The name of the function.
    pub name: String,
    /// Whether the function is only leaned on.
    pub pin: bool,
    /// The outcome.
    pub status: IntrinsicMatrixStatus,
    /// The fingerprint of the library's definition.
    pub defined_fp: Option<u64>,
    /// The fingerprint that the native version was written against.
    pub reference_fp: u64,
}

/// One row, mathematically.
pub struct Row {
    pub name: Seq<char>,
    pub pin: bool,
    pub status: IntrinsicMatrixStatus,
    pub defined_fp: Option<u64>,
    pub reference_fp: u64,
}

impl View for IntrinsicMatrixRow {
    type V = Row;

    open spec fn view(&self) -> Row {
        Row {
            name: self.name@,
            pin: self.pin,
            status: self.status,
            defined_fp: self.defined_fp,
            reference_fp: self.reference_fp,
        }
    }
}

/// The row for one name.
pub open spec fn row_for(ds: Seq<Def>, name: Seq<char>, fp: u64, pin: bool) -> Row {
    let defined_fp = match def_from(ds, name, 0) {
        Some(d) => Some(d.fp),
        None => None,
    };
    Row {
        name,
        pin,
        status: match defined_fp {
            Some(g) => if g == fp {
                IntrinsicMatrixStatus::Matched
            } else {
                IntrinsicMatrixStatus::Changed
            },
            None => IntrinsicMatrixStatus::Missing,
        },
        defined_fp,
        reference_fp: fp,
    }
}

/// All rows: the native versions, then the functions that are only leaned on.
pub open spec fn matrix(r: Natives, ds: Seq<Def>) -> Seq<Row> {
    Seq::new(
        r.entries.len(),
        |i: int| row_for(ds, r.entries[i].name, r.entries[i].fp, false),
    ) + Seq::new(r.pins.len(), |i: int| row_for(ds, r.pins[i].0, r.pins[i].1, true))
}

/// Some rows, mathematically.
pub open spec fn rows(rs: Seq<IntrinsicMatrixRow>) -> Seq<Row> {
    Seq::new(rs.len(), |i: int| rs[i]@)
}

fn matrix_row(functions: &Vec<FnDef>, name: &Name, fp: u64, pin: bool) -> (r: IntrinsicMatrixRow)
    ensures
        r@ == row_for(defs(functions@), name@, fp, pin),
{
    let defined_fp: Option<u64> = match position_of(functions, name) {
        Some(i) => Some(functions[i].fp),
        None => None,
    };
    let status: IntrinsicMatrixStatus = match defined_fp {
        Some(g) => if g == fp {
            IntrinsicMatrixStatus::Matched
        } else {
            IntrinsicMatrixStatus::Changed
        },
        None => IntrinsicMatrixStatus::Missing,
    };
    IntrinsicMatrixRow { name: (**name).clone(), pin, status, defined_fp, reference_fp: fp }
}

/// Compares the registry with the functions of a library.
pub fn intrinsic_matrix(registry: &Registry, functions: &Vec<FnDef>) -> (r: Vec<IntrinsicMatrixRow>)
    ensures
        rows(r@) == matrix(registry@, defs(functions@)),
{
    let ghost ds = defs(functions@);
    let ghost all = matrix(registry@, ds);
    let mut out: Vec<IntrinsicMatrixRow> = Vec::new();
    let mut i: usize = 0;
    while i < registry.entries.len()
        invariant
            i <= registry.entries@.len(),
            ds == defs(functions@),
            all == matrix(registry@, ds),
            rows(out@) =~= all.take(i as int),
        decreases registry.entries@.len() - i,
    {
        let e: &Entry = &registry.entries[i];
        assert(registry@.entries[i as int] == e@);
        let ghost before = rows(out@);
        let row: IntrinsicMatrixRow = matrix_row(functions, &e.name, e.fp, false);
        assert(all[i as int] == row@);
        out.push(row);
        assert(rows(out@) =~= before.push(row@));
        i += 1;
    }
    let mut k: usize = 0;
    while k < registry.pins.len()
        invariant
            k <= registry.pins@.len(),
            ds == defs(functions@),
            all == matrix(registry@, ds),
            rows(out@) =~= all.take(registry.entries@.len() + k),
        decreases registry.pins@.len() - k,
    {
        let p: &(Name, u64) = &registry.pins[k];
        assert(registry@.pins[k as int] == (p.0@, p.1));
        let ghost before = rows(out@);
        let row: IntrinsicMatrixRow = matrix_row(functions, &p.0, p.1, true);
        assert(all[registry.entries@.len() + k] == row@);
        out.push(row);
        assert(rows(out@) =~= before.push(row@));
        k += 1;
    }
    assert(all.take(all.len() as int) =~= all);
    out
}

/// A native version stands in only for a definition with the text it was written against.
pub proof fn law_only_the_verified_text_is_replaced(
    r: Natives,
    ds: Seq<Def>,
    st: Seq<crate::scope::Cell>,
    globals: Seq<Scope>,
    d: Def,
)
    requires
        wires(r, ds, d) || arms(r, ds, st, globals, d),
    ensures
        exists|i: int|
            0 <= i < r.entries.len() && (#[trigger] r.entries[i]).name == d.name && r.entries[i].fp
                == d.fp,
{
    lemma_entry_from(r.entries, d.name, 0);
}

proof fn lemma_entry_from(es: Seq<Native>, name: Seq<char>, i: int)
    requires
        0 <= i,
    ensures
        entry_from(es, name, i) matches Some(k) ==> i <= k < es.len() && es[k].name == name,
    decreases es.len() - i,
{
    if i < es.len() && es[i].name != name {
        lemma_entry_from(es, name, i + 1);
    }
}

/// No native version stands in both before and only after the constants are bound.
pub proof fn law_guarded_wait_for_their_constants(
    r: Natives,
    ds: Seq<Def>,
    st: Seq<crate::scope::Cell>,
    globals: Seq<Scope>,
    d: Def,
)
    ensures
        !(wires(r, ds, d) && arms(r, ds, st, globals, d)),
{
}

/// A name is reported as matching exactly where the library defines it with the reference text.
pub proof fn law_matched_means_same_text(ds: Seq<Def>, name: Seq<char>, fp: u64, pin: bool)
    ensures
        (row_for(ds, name, fp, pin).status == IntrinsicMatrixStatus::Matched) == (
        row_for(ds, name, fp, pin).defined_fp == Some(fp)),
        (row_for(ds, name, fp, pin).status == IntrinsicMatrixStatus::Missing) == (
        row_for(ds, name, fp, pin).defined_fp is None),
{
}

/// The native version that is registered for exactly this definition, whatever it leans on: for
/// timing it on its own.
pub fn bench_intrinsic<'r>(registry: &'r Registry, d: &FnDef) -> (r: Option<&'r Entry>)
    ensures
        match r {
            Some(e) => resolved(registry@, d@) == Some(e@),
            None => resolved(registry@, d@) is None,
        },
{
    registry.resolve(d)
}

/// Values that are the same to the bit are the same, and a value that holds no function and no object is the same as itself.
pub proof fn law_same_bits_are_the_same(a: Val, b: Val)
    ensures
        same_bits(a, b) ==> a == b,
        same_bits(a, b) ==> same_bits(b, a),
        a is Undef || a is Bool || a is Num || a is Str || a is NumList || a is Range ==> same_bits(a, a),
        a is Function || a is Object ==> !same_bits(a, b),
    decreases a,
{
    match (a, b) {
        (Val::List(x), Val::List(y)) => {
            if same_bits(a, b) {
                assert forall|i: int| 0 <= i < x.len() implies x[i] == y[i] && same_bits(y[i], x[i]) by {
                    assert(same_bits(x[i], y[i]));
                    law_same_bits_are_the_same(x[i], y[i]);
                }
                assert(x =~= y);
            }
        },
        _ => {},
    }
}

/// A native version is forbidden exactly where something that it leans on is not what it was written against: a function
/// that is not defined or has another text, or a builtin that a function of the program has taken the name of.
pub proof fn law_vetoes(r: Natives, ds: Seq<Def>, e: Native, i: int)
    ensures
        veto(r, ds, e) is None ==> (0 <= i < e.deps.len() ==> (def_from(ds, e.deps[i], 0) matches Some(d) && anchor(
            r,
            e.deps[i],
        ) == Some(d.fp))) && (0 <= i < e.builtins.len() ==> def_from(ds, e.builtins[i], 0) is None),
        0 <= i < e.deps.len() && !(def_from(ds, e.deps[i], 0) matches Some(d) && anchor(r, e.deps[i]) == Some(d.fp))
            ==> veto(r, ds, e) is Some,
        0 <= i < e.builtins.len() && def_from(ds, e.builtins[i], 0) is Some ==> veto(r, ds, e) is Some,
{
    lemma_dep_veto(r, ds, e.deps, 0, i);
    lemma_shadow_veto(ds, e.builtins, 0, i);
}

proof fn lemma_dep_veto(r: Natives, ds: Seq<Def>, deps: Seq<Seq<char>>, k: int, i: int)
    requires
        0 <= k,
    ensures
        dep_veto(r, ds, deps, k) is None && k <= i < deps.len() ==> (def_from(ds, deps[i], 0) matches Some(d) && anchor(
            r,
            deps[i],
        ) == Some(d.fp)),
    decreases deps.len() - k,
{
    if k < deps.len() {
        lemma_dep_veto(r, ds, deps, k + 1, i);
    }
}

proof fn lemma_shadow_veto(ds: Seq<Def>, builtins: Seq<Seq<char>>, k: int, i: int)
    requires
        0 <= k,
    ensures
        shadow_veto(ds, builtins, k) is None && k <= i < builtins.len() ==> def_from(ds, builtins[i], 0) is None,
    decreases builtins.len() - k,
{
    if k < builtins.len() {
        lemma_shadow_veto(ds, builtins, k + 1, i);
    }
}

/// The functions that a native version stands in for from the start are, in their order, just those for which one does
/// that was written against their text, leans on nothing that is forbidden and holds no constant.
pub proof fn law_wired_functions(r: Natives, ds: Seq<Def>, n: nat, name: Seq<char>)
    requires
        n <= ds.len(),
    ensures
        wired(r, ds, n).contains(name) <==> exists|i: int|
            0 <= i < n && (#[trigger] ds[i]).name == name && (resolved(r, ds[i]) matches Some(e) && e.consts.len() == 0
                && e.consts_v.len() == 0 && veto(r, ds, e) is None),
        forall|d: Def, e: Native| #[trigger] resolved(r, d) == Some(e) ==> #[trigger] e.fp == d.fp,
    decreases n,
{
    if n > 0 {
        law_wired_functions(r, ds, (n - 1) as nat, name);
        let before = wired(r, ds, (n - 1) as nat);
        let now = wired(r, ds, n);
        if before.contains(name) {
            let k = choose|k: int| 0 <= k < before.len() && before[k] == name;
            assert(now[k] == name);
            let i = choose|i: int|
                0 <= i < n - 1 && (#[trigger] ds[i]).name == name && (resolved(r, ds[i]) matches Some(e)
                    && e.consts.len() == 0 && e.consts_v.len() == 0 && veto(r, ds, e) is None);
            assert(ds[i].name == name);
        }
        if wires(r, ds, ds[n - 1]) {
            assert(now[now.len() - 1] == ds[n - 1].name);
            if now.contains(name) && !before.contains(name) {
                let k = choose|k: int| 0 <= k < now.len() && now[k] == name;
                if k < before.len() {
                    assert(before[k] == name);
                }
            }
        }
    }
}

/// The first thing that forbids a native version is told by its name: a function that is missing or has another text, and,
/// where every function is as it was, a builtin whose name is taken.
pub proof fn law_veto_texts(r: Natives, ds: Seq<Def>, e: Native, i: int)
    requires
        0 <= i,
        forall|k: int|
            0 <= k < i && k < e.deps.len() ==> (def_from(ds, #[trigger] e.deps[k], 0) matches Some(d) && anchor(
                r,
                e.deps[k],
            ) == Some(d.fp)),
    ensures
        i < e.deps.len() ==> match def_from(ds, e.deps[i], 0) {
            None => veto(r, ds, e) == Some("dep `"@ + e.deps[i] + "` is not defined in this program"@),
            Some(d) => anchor(r, e.deps[i]) != Some(d.fp) ==> veto(r, ds, e) == Some(
                "dep `"@ + e.deps[i] + "` drifted from its pinned reference"@,
            ),
        },
        i == e.deps.len() && e.builtins.len() > 0 && def_from(ds, e.builtins[0], 0) is Some ==> veto(r, ds, e) == Some(
            "builtin `"@ + e.builtins[0] + "` is shadowed by a user function"@,
        ),
{
    if i <= e.deps.len() {
        lemma_vetoes_begin(r, ds, e.deps, 0, i);
    }
}

proof fn lemma_vetoes_begin(r: Natives, ds: Seq<Def>, deps: Seq<Seq<char>>, k: int, i: int)
    requires
        0 <= k <= i <= deps.len(),
        forall|j: int|
            k <= j < i ==> (def_from(ds, #[trigger] deps[j], 0) matches Some(d) && anchor(r, deps[j]) == Some(d.fp)),
    ensures
        dep_veto(r, ds, deps, k) == dep_veto(r, ds, deps, i),
    decreases i - k,
{
    if k < i {
        assert(def_from(ds, deps[k], 0) is Some);
        lemma_vetoes_begin(r, ds, deps, k + 1, i);
    }
}

}

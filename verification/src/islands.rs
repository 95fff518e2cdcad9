//! The files of a program, each with what it defines, and how names resolve across them.

use vstd::prelude::*;

use crate::ast::{is_special, same_name, special, Expr, Name, Parameter, Program, Stmt, StmtKind};
use crate::chars::{law_text_order, law_text_order_transitive, text_lt, text_rank, Rank};
use crate::eval::defs;
use crate::hoist::{flat, flatten_blocks, pairs, stmts_of};
use crate::machine::{def_from, Def, FnDef};
use crate::scope::Scope;

verus! {

/// A module definition.
#[derive(Debug, Clone, Copy)]
pub struct ModDef<'a> {
    pub name: &'a Name,
    pub params: &'a Vec<Parameter>,
    pub body: &'a Stmt,
}

/// A module definition, mathematically.
pub struct Mod {
    pub name: Seq<char>,
    pub params: Seq<Parameter>,
    pub body: Stmt,
}

impl<'a> View for ModDef<'a> {
    type V = Mod;

    open spec fn view(&self) -> Mod {
        Mod { name: self.name@, params: self.params@, body: *self.body }
    }
}

/// Some module definitions, mathematically.
pub open spec fn mods(ms: Seq<ModDef>) -> Seq<Mod> {
    Seq::new(ms.len(), |i: int| ms[i]@)
}

/// A file: its modules, its functions, its assignments and the files it uses.
#[derive(Debug)]
pub struct Island<'a> {
    pub modules: Vec<ModDef<'a>>,
    pub functions: Vec<FnDef<'a>>,
    pub assignments: Vec<(&'a Name, &'a Expr)>,
    pub uses: Vec<usize>,
}

/// A file, mathematically.
pub struct Isle {
    pub modules: Seq<Mod>,
    pub functions: Seq<Def>,
    pub assignments: Seq<(Seq<char>, Expr)>,
    pub uses: Seq<usize>,
}

impl<'a> View for Island<'a> {
    type V = Isle;

    open spec fn view(&self) -> Isle {
        Isle {
            modules: mods(self.modules@),
            functions: defs(self.functions@),
            assignments: pairs(self.assignments@),
            uses: self.uses@,
        }
    }
}

/// Some files, mathematically.
pub open spec fn isles(is: Seq<Island>) -> Seq<Isle> {
    Seq::new(is.len(), |i: int| is[i]@)
}

/// Every used file is there.
pub open spec fn uses_ok(is: Seq<Isle>) -> bool {
    forall|i: int, k: int|
        0 <= i < is.len() && 0 <= k < is[i].uses.len() ==> (#[trigger] is[i].uses[k]) < is.len()
}

/// Definitions after one more: a known name takes the new definition, and a new name stands in the
/// order of the names.
pub open spec fn defined(ds: Seq<Def>, d: Def, i: int) -> Seq<Def>
    decreases ds.len() - i,
{
    if i >= ds.len() {
        ds.push(d)
    } else if ds[i].name == d.name {
        ds.update(i, d)
    } else if text_lt(d.name, ds[i].name) {
        ds.insert(i, d)
    } else {
        defined(ds, d, i + 1)
    }
}

/// Adds a definition; a known name takes the new one.
pub fn define<'a>(ds: &mut Vec<FnDef<'a>>, d: FnDef<'a>)
    ensures
        defs(final(ds)@) == defined(defs(old(ds)@), d@, 0),
{
    let ghost before = defs(ds@);
    let mut i: usize = 0;
    while i < ds.len()
        invariant
            i <= ds@.len(),
            *ds == *old(ds),
            before == defs(ds@),
            defined(before, d@, 0) == defined(before, d@, i as int),
        decreases ds@.len() - i,
    {
        assert(before[i as int].name == ds@[i as int].name@);
        proof {
            law_text_order(d.name@, ds@[i as int].name@);
        }
        match text_rank(d.name.as_str(), ds[i].name.as_str()) {
            Rank::Equal => {
                ds.set(i, d);
                assert(defs(ds@) =~= before.update(i as int, d@));
                return;
            },
            Rank::Less => {
                ds.insert(i, d);
                assert(defs(ds@) =~= before.insert(i as int, d@));
                return;
            },
            Rank::Greater => {},
        }
        i += 1;
    }
    ds.push(d);
    assert(defs(ds@) =~= before.push(d@));
}

/// A definition with another file as its home.
pub open spec fn homed(d: Def, home: usize) -> Def {
    Def { home, ..d }
}

/// The definitions after the first `n` of others, at home in the file `home`.
pub open spec fn merged(ds: Seq<Def>, more: Seq<Def>, home: usize, n: nat) -> Seq<Def>
    decreases n,
{
    if n == 0 {
        ds
    } else {
        defined(merged(ds, more, home, (n - 1) as nat), homed(more[n - 1], home), 0)
    }
}

fn merge<'a>(ds: &mut Vec<FnDef<'a>>, more: &Vec<FnDef<'a>>, home: usize)
    ensures
        defs(final(ds)@) == merged(defs(old(ds)@), defs(more@), home, more@.len()),
{
    let ghost before = defs(ds@);
    let ghost ms = defs(more@);
    let mut i: usize = 0;
    while i < more.len()
        invariant
            i <= more@.len(),
            ms == defs(more@),
            defs(ds@) == merged(before, ms, home, i as nat),
        decreases more@.len() - i,
    {
        let d: &FnDef<'a> = &more[i];
        assert(ms[i as int] == d@);
        define(ds, FnDef { name: d.name, params: d.params, body: d.body, home, fp: d.fp });
        i += 1;
    }
}

/// The functions of the first `n` files that a file uses.
pub open spec fn used_functions(is: Seq<Isle>, uses: Seq<usize>, n: nat) -> Seq<Def>
    decreases n,
{
    if n == 0 {
        Seq::empty()
    } else {
        let u = uses[n - 1];
        let more = is[u as int].functions;
        merged(used_functions(is, uses, (n - 1) as nat), more, u, more.len())
    }
}

/// The functions that the root file sees, each with the file it is at home in: those of the files
/// it uses, a later use over an earlier one, and its own over all of them.
pub open spec fn visible_functions(is: Seq<Isle>) -> Seq<Def> {
    if is.len() == 0 {
        Seq::empty()
    } else {
        merged(
            used_functions(is, is[0].uses, is[0].uses.len()),
            is[0].functions,
            0,
            is[0].functions.len(),
        )
    }
}

/// The functions that the root file sees, each with the file it is at home in.
pub fn tagged_functions<'a>(islands: &Vec<Island<'a>>) -> (r: Vec<FnDef<'a>>)
    requires
        uses_ok(isles(islands@)),
    ensures
        defs(r@) == visible_functions(isles(islands@)),
{
    let ghost is = isles(islands@);
    let mut out: Vec<FnDef<'a>> = Vec::new();
    assert(defs(out@) =~= Seq::<Def>::empty());
    if islands.len() == 0 {
        return out;
    }
    let root: &Island<'a> = &islands[0];
    assert(is[0] == root@);
    let mut i: usize = 0;
    while i < root.uses.len()
        invariant
            i <= root.uses@.len(),
            islands@.len() > 0,
            is == isles(islands@),
            uses_ok(is),
            is[0] == root@,
            defs(out@) == used_functions(is, root.uses@, i as nat),
        decreases root.uses@.len() - i,
    {
        let u: usize = root.uses[i];
        assert(is[0].uses[i as int] == u);
        assert(is[u as int] == islands@[u as int]@);
        merge(&mut out, &islands[u].functions, u);
        i += 1;
    }
    merge(&mut out, &root.functions, 0);
    out
}

/// Constants after one more: a known name takes the new value, and a new name stands in the order of
/// the names.
pub open spec fn by_name(ps: Seq<(Seq<char>, Expr)>, name: Seq<char>, e: Expr, i: int) -> Seq<
    (Seq<char>, Expr),
>
    decreases ps.len() - i,
{
    if i >= ps.len() {
        ps.push((name, e))
    } else if ps[i].0 == name {
        ps.update(i, (name, e))
    } else if text_lt(name, ps[i].0) {
        ps.insert(i, (name, e))
    } else {
        by_name(ps, name, e, i + 1)
    }
}

fn put_by_name<'a>(ps: &mut Vec<(&'a Name, &'a Expr)>, name: &'a Name, e: &'a Expr)
    ensures
        pairs(final(ps)@) == by_name(pairs(old(ps)@), name@, *e, 0),
{
    let ghost before = pairs(ps@);
    let mut i: usize = 0;
    while i < ps.len()
        invariant
            i <= ps@.len(),
            *ps == *old(ps),
            before == pairs(ps@),
            by_name(before, name@, *e, 0) == by_name(before, name@, *e, i as int),
        decreases ps@.len() - i,
    {
        assert(before[i as int].0 == ps@[i as int].0@);
        proof {
            law_text_order(name@, ps@[i as int].0@);
        }
        match text_rank(name.as_str(), ps[i].0.as_str()) {
            Rank::Equal => {
                ps.set(i, (name, e));
                assert(pairs(ps@) =~= before.update(i as int, (name@, *e)));
                return;
            },
            Rank::Less => {
                ps.insert(i, (name, e));
                assert(pairs(ps@) =~= before.insert(i as int, (name@, *e)));
                return;
            },
            Rank::Greater => {},
        }
        i += 1;
    }
    ps.push((name, e));
    assert(pairs(ps@) =~= before.push((name@, *e)));
}

/// The constants after the first `n` of others. `$`-names are no constants.
pub open spec fn constants(
    ps: Seq<(Seq<char>, Expr)>,
    more: Seq<(Seq<char>, Expr)>,
    n: nat,
) -> Seq<(Seq<char>, Expr)>
    decreases n,
{
    if n == 0 {
        ps
    } else if special(more[n - 1].0) {
        constants(ps, more, (n - 1) as nat)
    } else {
        by_name(constants(ps, more, (n - 1) as nat), more[n - 1].0, more[n - 1].1, 0)
    }
}

/// The constants of the first `n` files that a file uses.
pub open spec fn used_constants(is: Seq<Isle>, uses: Seq<usize>, n: nat) -> Seq<(Seq<char>, Expr)>
    decreases n,
{
    if n == 0 {
        Seq::empty()
    } else {
        let more = is[uses[n - 1] as int].assignments;
        constants(used_constants(is, uses, (n - 1) as nat), more, more.len())
    }
}

/// The constants that the root file sees: those of the files it uses, a later use over an earlier
/// one, and its own over all of them.
pub open spec fn visible_constants(is: Seq<Isle>) -> Seq<(Seq<char>, Expr)> {
    if is.len() == 0 {
        Seq::empty()
    } else {
        constants(
            used_constants(is, is[0].uses, is[0].uses.len()),
            is[0].assignments,
            is[0].assignments.len(),
        )
    }
}

fn add_constants<'a>(ps: &mut Vec<(&'a Name, &'a Expr)>, more: &Vec<(&'a Name, &'a Expr)>)
    ensures
        pairs(final(ps)@) == constants(pairs(old(ps)@), pairs(more@), more@.len()),
{
    let ghost before = pairs(ps@);
    let ghost ms = pairs(more@);
    let mut i: usize = 0;
    while i < more.len()
        invariant
            i <= more@.len(),
            ms == pairs(more@),
            pairs(ps@) == constants(before, ms, i as nat),
        decreases more@.len() - i,
    {
        assert(ms[i as int] == (more@[i as int].0@, *more@[i as int].1));
        if !is_special(more[i].0.as_str()) {
            put_by_name(ps, more[i].0, more[i].1);
        }
        i += 1;
    }
}

/// The constants that the root file sees.
pub fn tagged_globals<'a>(islands: &Vec<Island<'a>>) -> (r: Vec<(&'a Name, &'a Expr)>)
    requires
        uses_ok(isles(islands@)),
    ensures
        pairs(r@) == visible_constants(isles(islands@)),
{
    let ghost is = isles(islands@);
    let mut out: Vec<(&'a Name, &'a Expr)> = Vec::new();
    assert(pairs(out@) =~= Seq::<(Seq<char>, Expr)>::empty());
    if islands.len() == 0 {
        return out;
    }
    let root: &Island<'a> = &islands[0];
    assert(is[0] == root@);
    let mut i: usize = 0;
    while i < root.uses.len()
        invariant
            i <= root.uses@.len(),
            islands@.len() > 0,
            is == isles(islands@),
            uses_ok(is),
            is[0] == root@,
            pairs(out@) == used_constants(is, root.uses@, i as nat),
        decreases root.uses@.len() - i,
    {
        let u: usize = root.uses[i];
        assert(is[0].uses[i as int] == u);
        assert(is[u as int] == islands@[u as int]@);
        add_constants(&mut out, &islands[u].assignments);
        i += 1;
    }
    add_constants(&mut out, &root.assignments);
    out
}

/// The module of a list with a given name.
pub open spec fn mod_from(ms: Seq<Mod>, name: Seq<char>, i: int) -> Option<Mod>
    decreases ms.len() - i,
{
    if i >= ms.len() {
        None
    } else if ms[i].name == name {
        Some(ms[i])
    } else {
        mod_from(ms, name, i + 1)
    }
}

pub(crate) fn find_module<'a>(ms: &Vec<ModDef<'a>>, name: &Name) -> (r: Option<ModDef<'a>>)
    ensures
        match r {
            Some(m) => mod_from(mods(ms@), name@, 0) == Some(m@),
            None => mod_from(mods(ms@), name@, 0) is None,
        },
{
    let ghost all = mods(ms@);
    let mut i: usize = 0;
    while i < ms.len()
        invariant
            i <= ms@.len(),
            all == mods(ms@),
            mod_from(all, name@, 0) == mod_from(all, name@, i as int),
        decreases ms@.len() - i,
    {
        if same_name(ms[i].name, name) {
            return Some(ms[i]);
        }
        i += 1;
    }
    None
}

/// Modules defined in a scope, with that scope.
#[derive(Debug)]
pub struct LocalModules<'a> {
    pub modules: Vec<ModDef<'a>>,
    pub scope: Scope,
}

/// Modules defined in a scope, mathematically.
pub struct Locals {
    pub modules: Seq<Mod>,
    pub scope: Scope,
}

impl<'a> View for LocalModules<'a> {
    type V = Locals;

    open spec fn view(&self) -> Locals {
        Locals { modules: mods(self.modules@), scope: self.scope }
    }
}

/// Some scopes with modules, mathematically.
pub open spec fn locals(ls: Seq<LocalModules>) -> Seq<Locals> {
    Seq::new(ls.len(), |i: int| ls[i]@)
}

/// What a module name stands for: the definition, the file its body resolves names in, and the
/// scope it was defined in where that is no top level.
pub struct Found {
    pub def: Mod,
    pub home: usize,
    pub base: Option<Scope>,
}

/// A module among those of the `n` outermost scopes, the innermost first.
pub open spec fn local_module(ls: Seq<Locals>, name: Seq<char>, n: nat) -> Option<(Mod, Scope)>
    decreases n,
{
    if n == 0 {
        None
    } else {
        match mod_from(ls[n - 1].modules, name, 0) {
            Some(m) => Some((m, ls[n - 1].scope)),
            None => local_module(ls, name, (n - 1) as nat),
        }
    }
}

/// A module among those of the first `n` used files, the last one first.
pub open spec fn used_module(is: Seq<Isle>, uses: Seq<usize>, name: Seq<char>, n: nat) -> Option<
    (Mod, usize),
>
    decreases n,
{
    if n == 0 {
        None
    } else {
        match mod_from(is[uses[n - 1] as int].modules, name, 0) {
            Some(m) => Some((m, uses[n - 1])),
            None => used_module(is, uses, name, (n - 1) as nat),
        }
    }
}

/// What a module name stands for in a file: a module of an enclosing scope, the innermost first;
/// else one of the file itself; else one of the files it uses, the last use first.
pub open spec fn module_found(
    is: Seq<Isle>,
    ls: Seq<Locals>,
    island: usize,
    name: Seq<char>,
) -> Option<Found> {
    match local_module(ls, name, ls.len()) {
        Some((def, scope)) => Some(Found { def, home: island, base: Some(scope) }),
        None => match mod_from(is[island as int].modules, name, 0) {
            Some(def) => Some(Found { def, home: island, base: None }),
            None => match used_module(
                is,
                is[island as int].uses,
                name,
                is[island as int].uses.len(),
            ) {
                Some((def, home)) => Some(Found { def, home, base: None }),
                None => None,
            },
        },
    }
}

fn find_local<'a>(ls: &Vec<LocalModules<'a>>, name: &Name) -> (r: Option<(ModDef<'a>, Scope)>)
    ensures
        match r {
            Some((m, s)) => local_module(locals(ls@), name@, ls@.len()) == Some((m@, s)),
            None => local_module(locals(ls@), name@, ls@.len()) is None,
        },
{
    let ghost all = locals(ls@);
    let mut i: usize = ls.len();
    while i > 0
        invariant
            i <= ls@.len(),
            all == locals(ls@),
            local_module(all, name@, ls@.len()) == local_module(all, name@, i as nat),
        decreases i,
    {
        i -= 1;
        assert(all[i as int] == ls@[i as int]@);
        match find_module(&ls[i].modules, name) {
            Some(m) => {
                return Some((m, ls[i].scope));
            },
            None => {},
        }
    }
    None
}

/// What a module name stands for in a file: the definition, the file its body resolves names in,
/// and the scope it was defined in where that is no top level.
pub fn resolve_module<'a>(
    islands: &Vec<Island<'a>>,
    local_modules: &Vec<LocalModules<'a>>,
    island: usize,
    name: &Name,
) -> (r: Option<(ModDef<'a>, usize, Option<Scope>)>)
    requires
        island < islands@.len(),
        uses_ok(isles(islands@)),
    ensures
        match r {
            Some((def, home, base)) => module_found(
                isles(islands@),
                locals(local_modules@),
                island,
                name@,
            ) == Some(Found { def: def@, home, base }),
            None => module_found(isles(islands@), locals(local_modules@), island, name@) is None,
        },
        r matches Some((_, home, _)) ==> home < islands@.len(),
{
    let ghost is = isles(islands@);
    match find_local(local_modules, name) {
        Some((m, s)) => {
            return Some((m, island, Some(s)));
        },
        None => {},
    }
    let here: &Island<'a> = &islands[island];
    assert(is[island as int] == here@);
    match find_module(&here.modules, name) {
        Some(m) => {
            return Some((m, island, None));
        },
        None => {},
    }
    let mut i: usize = here.uses.len();
    while i > 0
        invariant
            i <= here.uses@.len(),
            island < islands@.len(),
            is == isles(islands@),
            uses_ok(is),
            is[island as int] == here@,
            local_module(locals(local_modules@), name@, local_modules@.len()) is None,
            mod_from(here@.modules, name@, 0) is None,
            used_module(is, here.uses@, name@, here.uses@.len()) == used_module(
                is,
                here.uses@,
                name@,
                i as nat,
            ),
        decreases i,
    {
        i -= 1;
        let u: usize = here.uses[i];
        assert(is[island as int].uses[i as int] == u);
        assert(is[u as int] == islands@[u as int]@);
        match find_module(&islands[u].modules, name) {
            Some(m) => {
                return Some((m, u, None));
            },
            None => {},
        }
    }
    None
}

/// Modules after one more: a known name takes the new definition.
pub open spec fn mod_defined(ms: Seq<Mod>, m: Mod, i: int) -> Seq<Mod>
    decreases ms.len() - i,
{
    if i >= ms.len() {
        ms.push(m)
    } else if ms[i].name == m.name {
        ms.update(i, m)
    } else {
        mod_defined(ms, m, i + 1)
    }
}

/// Adds a module; a known name takes the new definition.
pub fn define_module<'a>(ms: &mut Vec<ModDef<'a>>, m: ModDef<'a>)
    ensures
        mods(final(ms)@) == mod_defined(mods(old(ms)@), m@, 0),
{
    let ghost before = mods(ms@);
    let mut i: usize = 0;
    while i < ms.len()
        invariant
            i <= ms@.len(),
            *ms == *old(ms),
            before == mods(ms@),
            mod_defined(before, m@, 0) == mod_defined(before, m@, i as int),
        decreases ms@.len() - i,
    {
        if same_name(ms[i].name, m.name) {
            ms.set(i, m);
            assert(mods(ms@) =~= before.update(i as int, m@));
            return;
        }
        i += 1;
    }
    ms.push(m);
    assert(mods(ms@) =~= before.push(m@));
}

/// The modules defined by the first `n` of some statements.
pub open spec fn modules_of(ss: Seq<Stmt>, n: nat) -> Seq<Mod>
    decreases n,
{
    if n == 0 {
        Seq::empty()
    } else {
        match ss[n - 1].kind {
            StmtKind::ModuleDef { name, params, body } => mod_defined(
                modules_of(ss, (n - 1) as nat),
                Mod { name: name@, params: params@, body: *body },
                0,
            ),
            _ => modules_of(ss, (n - 1) as nat),
        }
    }
}

/// The modules that a list of statements defines, in blocks too; the last definition of a name
/// counts.
pub fn collect_module_defs<'a>(stmts: &Vec<&'a Stmt>) -> (r: Vec<ModDef<'a>>)
    ensures
        mods(r@) == modules_of(flat(stmts_of(stmts@)), flat(stmts_of(stmts@)).len()),
{
    let all: Vec<&'a Stmt> = flatten_blocks(stmts);
    module_defs(&all)
}

fn module_defs<'a>(all: &Vec<&'a Stmt>) -> (r: Vec<ModDef<'a>>)
    ensures
        mods(r@) == modules_of(stmts_of(all@), all@.len()),
{
    let ghost ss = stmts_of(all@);
    let mut out: Vec<ModDef<'a>> = Vec::new();
    assert(mods(out@) =~= Seq::<Mod>::empty());
    let mut i: usize = 0;
    while i < all.len()
        invariant
            i <= all@.len(),
            ss == stmts_of(all@),
            mods(out@) == modules_of(ss, i as nat),
        decreases all@.len() - i,
    {
        let s: &'a Stmt = all[i];
        assert(ss[i as int] == *s);
        match &s.kind {
            StmtKind::ModuleDef { name, params, body } => {
                define_module(&mut out, ModDef { name, params, body });
            },
            _ => {},
        }
        i += 1;
    }
    out
}

/// The functions defined by the first `n` of some statements, at home in the root file.
pub open spec fn functions_of(ss: Seq<Stmt>, n: nat) -> Seq<Def>
    decreases n,
{
    if n == 0 {
        Seq::empty()
    } else {
        match ss[n - 1].kind {
            StmtKind::FunctionDef { name, params, body, repr, fp } => defined(
                functions_of(ss, (n - 1) as nat),
                Def { name: name@, params: params@, body, home: 0, fp },
                0,
            ),
            _ => functions_of(ss, (n - 1) as nat),
        }
    }
}

/// The functions that a list of statements defines; the last definition of a name counts.
pub fn function_defs<'a>(all: &Vec<&'a Stmt>) -> (r: Vec<FnDef<'a>>)
    ensures
        defs(r@) == functions_of(stmts_of(all@), all@.len()),
        forall|i: int| 0 <= i < r@.len() ==> (#[trigger] r@[i]).home == 0,
{
    let ghost ss = stmts_of(all@);
    let mut out: Vec<FnDef<'a>> = Vec::new();
    assert(defs(out@) =~= Seq::<Def>::empty());
    let mut i: usize = 0;
    while i < all.len()
        invariant
            i <= all@.len(),
            ss == stmts_of(all@),
            defs(out@) == functions_of(ss, i as nat),
        decreases all@.len() - i,
    {
        let s: &'a Stmt = all[i];
        assert(ss[i as int] == *s);
        match &s.kind {
            StmtKind::FunctionDef { name, params, body, repr, fp } => {
                define(&mut out, FnDef { name, params, body, home: 0, fp: *fp });
            },
            _ => {},
        }
        i += 1;
    }
    proof {
        lemma_functions_home(ss, ss.len());
        assert forall|i: int| 0 <= i < out@.len() implies (#[trigger] out@[i]).home == 0 by {
            assert(defs(out@)[i] == out@[i]@);
        }
    }
    out
}

proof fn lemma_defined_home(ds: Seq<Def>, d: Def, i: int, homes: usize)
    requires
        0 <= i,
        d.home == homes,
        forall|k: int| 0 <= k < ds.len() ==> (#[trigger] ds[k]).home == homes,
    ensures
        forall|k: int| 0 <= k < defined(ds, d, i).len() ==> (#[trigger] defined(ds, d, i)[k]).home
            == homes,
    decreases ds.len() - i,
{
    if i < ds.len() && ds[i].name != d.name {
        if text_lt(d.name, ds[i].name) {
            let r = ds.insert(i, d);
            assert forall|k: int| 0 <= k < r.len() implies (#[trigger] r[k]).home == homes by {
                if k < i {
                    assert(r[k] == ds[k]);
                } else if k > i {
                    assert(r[k] == ds[k - 1]);
                }
            }
        } else {
            lemma_defined_home(ds, d, i + 1, homes);
        }
    }
}

proof fn lemma_functions_home(ss: Seq<Stmt>, n: nat)
    ensures
        forall|k: int|
            0 <= k < functions_of(ss, n).len() ==> (#[trigger] functions_of(ss, n)[k]).home == 0,
    decreases n,
{
    if n > 0 {
        lemma_functions_home(ss, (n - 1) as nat);
        match ss[n - 1].kind {
            StmtKind::FunctionDef { name, params, body, repr, fp } => {
                lemma_defined_home(
                    functions_of(ss, (n - 1) as nat),
                    Def { name: name@, params: params@, body, home: 0, fp },
                    0,
                    0,
                );
            },
            _ => {},
        }
    }
}

/// The statements of a program by reference.
pub fn stmt_refs<'a>(program: &'a Program) -> (r: Vec<&'a Stmt>)
    ensures
        stmts_of(r@) == program.stmts@,
{
    let mut out: Vec<&'a Stmt> = Vec::new();
    let mut i: usize = 0;
    while i < program.stmts.len()
        invariant
            i <= program.stmts@.len(),
            out@.len() == i,
            forall|k: int| 0 <= k < i ==> *(#[trigger] out@[k]) == program.stmts@[k],
        decreases program.stmts@.len() - i,
    {
        out.push(&program.stmts[i]);
        i += 1;
    }
    assert(stmts_of(out@) =~= program.stmts@);
    out
}

/// A program on its own as one file: its modules, and nothing else, belong to the file; its
/// functions are returned beside it.
pub fn program_island<'a>(program: &'a Program) -> (r: (Island<'a>, Vec<FnDef<'a>>))
    ensures
        r.0@.modules == modules_of(program.stmts@, program.stmts@.len()),
        r.0@.functions.len() == 0,
        r.0@.assignments.len() == 0,
        r.0@.uses.len() == 0,
        defs(r.1@) == functions_of(program.stmts@, program.stmts@.len()),
        forall|i: int| 0 <= i < r.1@.len() ==> (#[trigger] r.1@[i]).home == 0,
{
    let all: Vec<&'a Stmt> = stmt_refs(program);
    let modules: Vec<ModDef<'a>> = module_defs(&all);
    let functions: Vec<FnDef<'a>> = function_defs(&all);
    (
        Island { modules, functions: Vec::new(), assignments: Vec::new(), uses: Vec::new() },
        functions,
    )
}

proof fn lemma_defined_finds(ds: Seq<Def>, d: Def, i: int, name: Seq<char>)
    requires
        0 <= i <= ds.len(),
        forall|k: int| 0 <= k < i ==> (#[trigger] ds[k]).name != d.name,
    ensures
        def_from(defined(ds, d, i), d.name, 0) == Some(d),
        name != d.name ==> def_from(defined(ds, d, i), name, 0) == def_from(ds, name, 0),
    decreases ds.len() - i,
{
    let r = defined(ds, d, i);
    if i >= ds.len() {
        lemma_def_push(ds, d, 0, name);
    } else if ds[i].name == d.name {
        lemma_def_update(ds, i, d, 0, name);
    } else if text_lt(d.name, ds[i].name) {
        lemma_def_insert(ds, i, d, 0, name);
    } else {
        lemma_defined_finds(ds, d, i + 1, name);
    }
}

proof fn lemma_def_shifted(ds: Seq<Def>, i: int, d: Def, j: int, name: Seq<char>)
    requires
        0 <= i <= j <= ds.len(),
    ensures
        def_from(ds.insert(i, d), name, j + 1) == def_from(ds, name, j),
    decreases ds.len() - j,
{
    if j < ds.len() {
        assert(ds.insert(i, d)[j + 1] == ds[j]);
        lemma_def_shifted(ds, i, d, j + 1, name);
    }
}

proof fn lemma_def_insert(ds: Seq<Def>, i: int, d: Def, j: int, name: Seq<char>)
    requires
        0 <= j <= i <= ds.len(),
        forall|k: int| 0 <= k < i ==> (#[trigger] ds[k]).name != d.name,
    ensures
        def_from(ds.insert(i, d), d.name, j) == Some(d),
        name != d.name ==> def_from(ds.insert(i, d), name, j) == def_from(ds, name, j),
    decreases i - j,
{
    if j < i {
        assert(ds.insert(i, d)[j] == ds[j]);
        lemma_def_insert(ds, i, d, j + 1, name);
    } else {
        assert(ds.insert(i, d)[i] == d);
        lemma_def_shifted(ds, i, d, i, name);
    }
}

proof fn lemma_def_push(ds: Seq<Def>, d: Def, j: int, name: Seq<char>)
    requires
        0 <= j <= ds.len(),
    ensures
        (forall|k: int| j <= k < ds.len() ==> (#[trigger] ds[k]).name != d.name) ==> def_from(
            ds.push(d),
            d.name,
            j,
        ) == Some(d),
        name != d.name ==> def_from(ds.push(d), name, j) == def_from(ds, name, j),
    decreases ds.len() - j,
{
    if j < ds.len() {
        lemma_def_push(ds, d, j + 1, name);
    } else {
        assert(def_from(ds.push(d), name, j + 1) is None);
    }
}

proof fn lemma_def_update(ds: Seq<Def>, i: int, d: Def, j: int, name: Seq<char>)
    requires
        0 <= j <= ds.len(),
        0 <= i < ds.len(),
        ds[i].name == d.name,
        forall|k: int| 0 <= k < i ==> (#[trigger] ds[k]).name != d.name,
    ensures
        j <= i ==> def_from(ds.update(i, d), d.name, j) == Some(d),
        name != d.name ==> def_from(ds.update(i, d), name, j) == def_from(ds, name, j),
    decreases ds.len() - j,
{
    if j < ds.len() {
        lemma_def_update(ds, i, d, j + 1, name);
    }
}

/// A definition replaces the one that its name had, and touches no other name.
pub proof fn law_last_definition_counts(ds: Seq<Def>, d: Def, other: Seq<char>)
    ensures
        def_from(defined(ds, d, 0), d.name, 0) == Some(d),
        other != d.name ==> def_from(defined(ds, d, 0), other, 0) == def_from(ds, other, 0),
{
    lemma_defined_finds(ds, d, 0, other);
}

/// Definitions in the strict order of their names.
pub open spec fn in_name_order(ds: Seq<Def>) -> bool {
    forall|i: int, j: int|
        0 <= i < j < ds.len() ==> text_lt((#[trigger] ds[i]).name, (#[trigger] ds[j]).name)
}

proof fn lemma_defined_in_order(ds: Seq<Def>, d: Def, i: int)
    requires
        in_name_order(ds),
        0 <= i <= ds.len(),
        forall|k: int| 0 <= k < i ==> text_lt((#[trigger] ds[k]).name, d.name),
    ensures
        in_name_order(defined(ds, d, i)),
    decreases ds.len() - i,
{
    if i < ds.len() && ds[i].name != d.name {
        if text_lt(d.name, ds[i].name) {
            let r = ds.insert(i, d);
            assert forall|a: int, b: int| 0 <= a < b < r.len() implies text_lt(
                (#[trigger] r[a]).name,
                (#[trigger] r[b]).name,
            ) by {
                let x = if a < i {
                    a
                } else {
                    a - 1
                };
                let y = if b < i {
                    b
                } else {
                    b - 1
                };
                if a != i {
                    assert(r[a] == ds[x]);
                }
                if b != i {
                    assert(r[b] == ds[y]);
                }
                if a == i && y != i {
                    law_text_order_transitive(d.name, ds[i].name, ds[y].name);
                }
            }
        } else {
            law_text_order(d.name, ds[i].name);
            lemma_defined_in_order(ds, d, i + 1);
        }
    }
}

proof fn lemma_merged_in_order(ds: Seq<Def>, more: Seq<Def>, home: usize, n: nat)
    requires
        in_name_order(ds),
    ensures
        in_name_order(merged(ds, more, home, n)),
    decreases n,
{
    if n > 0 {
        lemma_merged_in_order(ds, more, home, (n - 1) as nat);
        lemma_defined_in_order(
            merged(ds, more, home, (n - 1) as nat),
            homed(more[n - 1], home),
            0,
        );
    }
}

proof fn lemma_used_in_order(is: Seq<Isle>, uses: Seq<usize>, n: nat)
    ensures
        in_name_order(used_functions(is, uses, n)),
    decreases n,
{
    if n > 0 {
        lemma_used_in_order(is, uses, (n - 1) as nat);
        let u = uses[n - 1];
        let more = is[u as int].functions;
        lemma_merged_in_order(
            used_functions(is, uses, (n - 1) as nat),
            more,
            u,
            more.len(),
        );
    }
}

/// The functions that a file sees stand in the order of their names, each name once.
pub proof fn law_functions_stand_by_name(is: Seq<Isle>)
    ensures
        in_name_order(visible_functions(is)),
{
    if is.len() > 0 {
        lemma_used_in_order(is, is[0].uses, is[0].uses.len());
        lemma_merged_in_order(
            used_functions(is, is[0].uses, is[0].uses.len()),
            is[0].functions,
            0,
            is[0].functions.len(),
        );
    }
}

proof fn lemma_merged_finds(ds: Seq<Def>, more: Seq<Def>, home: usize, n: nat, k: int)
    requires
        0 <= k < n <= more.len(),
        forall|j: int| k < j < n ==> (#[trigger] more[j]).name != more[k].name,
    ensures
        def_from(merged(ds, more, home, n), more[k].name, 0) == Some(homed(more[k], home)),
    decreases n,
{
    lemma_defined_finds(
        merged(ds, more, home, (n - 1) as nat),
        homed(more[n - 1], home),
        0,
        more[k].name,
    );
    if k < n - 1 {
        lemma_merged_finds(ds, more, home, (n - 1) as nat, k);
    }
}

/// A function that the root file defines itself is seen there, whatever the files it uses define.
pub proof fn law_own_functions_beat_used_ones(is: Seq<Isle>, k: int)
    requires
        is.len() > 0,
        0 <= k < is[0].functions.len(),
        forall|j: int|
            k < j < is[0].functions.len() ==> (#[trigger] is[0].functions[j]).name
                != is[0].functions[k].name,
    ensures
        def_from(visible_functions(is), is[0].functions[k].name, 0) == Some(
            homed(is[0].functions[k], 0),
        ),
{
    lemma_merged_finds(
        used_functions(is, is[0].uses, is[0].uses.len()),
        is[0].functions,
        0,
        is[0].functions.len(),
        k,
    );
}

/// A module of an enclosing scope beats one of the file, which beats one of a used file; and a
/// module that the program does not define resolves to nothing.
pub proof fn law_modules_resolve_inside_out(
    is: Seq<Isle>,
    ls: Seq<Locals>,
    island: usize,
    name: Seq<char>,
)
    ensures
        local_module(ls, name, ls.len()) matches Some((def, scope)) ==> module_found(
            is,
            ls,
            island,
            name,
        ) == Some(Found { def, home: island, base: Some(scope) }),
        local_module(ls, name, ls.len()) is None && mod_from(is[island as int].modules, name, 0)
            is Some ==> module_found(is, ls, island, name) == Some(
            Found {
                def: mod_from(is[island as int].modules, name, 0)->Some_0,
                home: island,
                base: None,
            },
        ),
{
}

/// The last definition of a module counts, and no other module changes with it.
pub proof fn law_last_module_counts(ms: Seq<Mod>, m: Mod, other: Seq<char>)
    ensures
        mod_from(mod_defined(ms, m, 0), m.name, 0) == Some(m),
        other != m.name ==> mod_from(mod_defined(ms, m, 0), other, 0) == mod_from(ms, other, 0),
{
    lemma_mod_defined_finds(ms, m, 0, other);
}

proof fn lemma_mod_defined_finds(ms: Seq<Mod>, m: Mod, i: int, name: Seq<char>)
    requires
        0 <= i <= ms.len(),
        forall|k: int| 0 <= k < i ==> (#[trigger] ms[k]).name != m.name,
    ensures
        mod_from(mod_defined(ms, m, i), m.name, 0) == Some(m),
        name != m.name ==> mod_from(mod_defined(ms, m, i), name, 0) == mod_from(ms, name, 0),
    decreases ms.len() - i,
{
    if i >= ms.len() {
        lemma_mod_push(ms, m, 0, name);
    } else if ms[i].name == m.name {
        lemma_mod_update(ms, i, m, 0, name);
    } else {
        lemma_mod_defined_finds(ms, m, i + 1, name);
    }
}

proof fn lemma_mod_push(ms: Seq<Mod>, m: Mod, j: int, name: Seq<char>)
    requires
        0 <= j <= ms.len(),
        forall|k: int| 0 <= k < ms.len() ==> (#[trigger] ms[k]).name != m.name,
    ensures
        mod_from(ms.push(m), m.name, j) == Some(m),
        name != m.name ==> mod_from(ms.push(m), name, j) == mod_from(ms, name, j),
    decreases ms.len() - j,
{
    if j < ms.len() {
        assert(ms.push(m)[j] == ms[j]);
        lemma_mod_push(ms, m, j + 1, name);
    } else {
        assert(ms.push(m)[j] == m);
        assert(mod_from(ms.push(m), name, j + 1) is None);
    }
}

proof fn lemma_mod_update(ms: Seq<Mod>, i: int, m: Mod, j: int, name: Seq<char>)
    requires
        0 <= i < ms.len(),
        0 <= j <= ms.len(),
        ms[i].name == m.name,
        forall|k: int| 0 <= k < i ==> (#[trigger] ms[k]).name != m.name,
    ensures
        j <= i ==> mod_from(ms.update(i, m), m.name, j) == Some(m),
        name != m.name ==> mod_from(ms.update(i, m), name, j) == mod_from(ms, name, j),
    decreases ms.len() - j,
{
    if j < ms.len() {
        lemma_mod_update(ms, i, m, j + 1, name);
    }
}

/// The modules that a file defines: what its `n`-th statement defines is found under its name, whatever came before.
pub proof fn law_modules_of_a_file(ss: Seq<Stmt>, n: nat, other: Seq<char>)
    requires
        0 < n <= ss.len(),
    ensures
        match ss[n - 1].kind {
            StmtKind::ModuleDef { name, params, body } => mod_from(modules_of(ss, n), name@, 0) == Some(
                Mod { name: name@, params: params@, body: *body },
            ) && (other != name@ ==> mod_from(modules_of(ss, n), other, 0) == mod_from(
                modules_of(ss, (n - 1) as nat),
                other,
                0,
            )),
            _ => modules_of(ss, n) == modules_of(ss, (n - 1) as nat),
        },
{
    match ss[n - 1].kind {
        StmtKind::ModuleDef { name, params, body } => {
            law_last_module_counts(
                modules_of(ss, (n - 1) as nat),
                Mod { name: name@, params: params@, body: *body },
                other,
            );
        },
        _ => {},
    }
}

/// A constant of the root file is seen with what the file last assigns to it, whatever the files that it uses assign;
/// and no setting, whose name begins with `$`, is among the constants.
pub proof fn law_own_constants_beat_used_ones(is: Seq<Isle>, k: int)
    requires
        is.len() > 0,
        0 <= k < is[0].assignments.len(),
        forall|j: int|
            k < j < is[0].assignments.len() ==> (#[trigger] is[0].assignments[j]).0 != is[0].assignments[k].0,
    ensures
        !special(is[0].assignments[k].0) ==> visible_constants(is).contains(is[0].assignments[k]),
        forall|i: int| 0 <= i < visible_constants(is).len() ==> !special((#[trigger] visible_constants(is)[i]).0),
{
    let used = used_constants(is, is[0].uses, is[0].uses.len());
    lemma_used_plain(is, is[0].uses, is[0].uses.len());
    lemma_constants_hold(used, is[0].assignments, is[0].assignments.len(), k);
}

proof fn lemma_used_plain(is: Seq<Isle>, uses: Seq<usize>, n: nat)
    ensures
        forall|i: int|
            0 <= i < used_constants(is, uses, n).len() ==> !special((#[trigger] used_constants(is, uses, n)[i]).0),
    decreases n,
{
    if n > 0 {
        lemma_used_plain(is, uses, (n - 1) as nat);
        let more = is[uses[n - 1] as int].assignments;
        lemma_constants_hold(used_constants(is, uses, (n - 1) as nat), more, more.len(), -1);
    }
}

proof fn lemma_constants_hold(ps: Seq<(Seq<char>, Expr)>, more: Seq<(Seq<char>, Expr)>, n: nat, k: int)
    requires
        n <= more.len(),
        forall|i: int| 0 <= i < ps.len() ==> !special((#[trigger] ps[i]).0),
        0 <= k < n ==> forall|j: int| k < j < n ==> (#[trigger] more[j]).0 != more[k].0,
    ensures
        0 <= k < n && !special(more[k].0) ==> constants(ps, more, n).contains(more[k]),
        forall|i: int| 0 <= i < constants(ps, more, n).len() ==> !special((#[trigger] constants(ps, more, n)[i]).0),
    decreases n,
{
    if n > 0 {
        let m = (n - 1) as nat;
        lemma_constants_hold(ps, more, m, k);
        if !special(more[n - 1].0) {
            let c = constants(ps, more, m);
            lemma_by_name_holds(c, more[n - 1].0, more[n - 1].1, 0, if 0 <= k < n {
                more[k]
            } else {
                more[n - 1]
            });
        }
    }
}

proof fn lemma_by_name_holds(ps: Seq<(Seq<char>, Expr)>, name: Seq<char>, e: Expr, i: int, p: (Seq<char>, Expr))
    requires
        0 <= i <= ps.len(),
        !special(name),
        forall|k: int| 0 <= k < ps.len() ==> !special((#[trigger] ps[k]).0),
    ensures
        by_name(ps, name, e, i).contains((name, e)),
        p.0 != name && ps.contains(p) ==> by_name(ps, name, e, i).contains(p),
        forall|k: int| 0 <= k < by_name(ps, name, e, i).len() ==> !special((#[trigger] by_name(ps, name, e, i)[k]).0),
    decreases ps.len() - i,
{
    let r = by_name(ps, name, e, i);
    if i >= ps.len() {
        assert(r[ps.len() as int] == (name, e));
        if ps.contains(p) {
            let k = choose|k: int| 0 <= k < ps.len() && ps[k] == p;
            assert(r[k] == p);
        }
    } else if ps[i].0 == name {
        assert(r[i] == (name, e));
        if p.0 != name && ps.contains(p) {
            let k = choose|k: int| 0 <= k < ps.len() && ps[k] == p;
            assert(r[k] == p);
        }
    } else if text_lt(name, ps[i].0) {
        assert(r[i] == (name, e));
        if ps.contains(p) {
            let k = choose|k: int| 0 <= k < ps.len() && ps[k] == p;
            if k < i {
                assert(r[k] == p);
            } else {
                assert(r[k + 1] == p);
            }
        }
        assert forall|k: int| 0 <= k < r.len() implies !special((#[trigger] r[k]).0) by {
            if k < i {
                assert(r[k] == ps[k]);
            } else if k > i {
                assert(r[k] == ps[k - 1]);
            }
        }
    } else {
        lemma_by_name_holds(ps, name, e, i + 1, p);
    }
}

}

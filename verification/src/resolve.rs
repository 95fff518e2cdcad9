//! Evaluating a program against the files that are there, and naming those that are not.


use vstd::prelude::*;

use crate::ast::{same_name, Expr, Name, Parameter, Program, Stmt};
use crate::bind::{
    as_items, constants_from, grouped, hoist_from, published, publish_spec, rooted,
};
use crate::chars::{cat3, cat5, chars_of, dec, decimal, text_lt};
use crate::emit::{debug_of, debug_text, join, joined, texts};
use crate::discipline::{law_run_keeps_bindings, spent};
use crate::entry::{begin, begun, oracle_armed};
use crate::eval::{defs, Config, Ctx};
use crate::geo::{
    eval_top, group_lines, mesh_of, needs_kernel, needs_solid, rendered_items, top_of, uncoloured,
    Contour, Geo, GeoNode, Mesh,
};
use crate::geom::{letters_match, same_letters};
use crate::hoist::{item_name, pairs, scope_assignments, shape, stmts_of, Item};
use crate::host::{Answer, Reply};
use crate::intrinsics::{
    arm_guarded_intrinsics, intrinsic_matrix, matrix, rows, IntrinsicMatrixRow, Natives, Registry,
};
use crate::islands::{
    functions_of, isles, program_island, stmt_refs, tagged_functions, tagged_globals, uses_ok,
    visible_constants, visible_functions, Island, Isle,
};
use crate::machine::{names_of, run_ok, sibling_value, Def, FnDef, Job, State, Task};
use crate::iterate::named_value;
use crate::message::{nowhere, Error, Failure, Fault, Message};
use crate::names::NameSet;
use crate::num::{unit, unit_ok, FloatOp};
use crate::run::{eval_in, host, host_ok, started};
use crate::scope::{scope_ok, Scope};
use crate::value::Sibling;

verus! {

/// What a file holds: a mesh, contours, or bytes.
#[derive(Debug)]
pub enum Imported {
    Mesh(Mesh),
    Contours(Vec<Contour>),
    Bytes(Vec<u8>),
}

/// The last place of a character, or less than zero.
pub open spec fn last_place(s: Seq<char>, c: char) -> int
    decreases s.len(),
{
    if s.len() == 0 {
        -1
    } else if s.last() == c {
        s.len() - 1
    } else {
        last_place(s.drop_last(), c)
    }
}

/// The last part of a path: what follows the last slash, where empty parts and `.` do not count.
pub open spec fn last_part(s: Seq<char>) -> Option<Seq<char>>
    decreases s.len(),
    via last_part_shrinks
{
    let i = last_place(s, '/');
    let part = s.skip(i + 1);
    if part.len() > 0 && part != "."@ {
        Some(part)
    } else if i < 0 {
        None
    } else {
        last_part(s.take(i))
    }
}

#[via_fn]
proof fn last_part_shrinks(s: Seq<char>) {
    lemma_last_place(s, '/');
}

proof fn lemma_last_place(s: Seq<char>, c: char)
    ensures
        -1 <= last_place(s, c) < s.len() || (s.len() == 0 && last_place(s, c) == -1),
        last_place(s, c) >= 0 ==> s[last_place(s, c)] == c,
        forall|k: int| last_place(s, c) < k < s.len() ==> #[trigger] s[k] != c,
    decreases s.len(),
{
    if s.len() > 0 && s.last() != c {
        lemma_last_place(s.drop_last(), c);
        assert forall|k: int| last_place(s, c) < k < s.len() implies #[trigger] s[k] != c by {
            if k < s.len() - 1 {
                assert(s[k] == s.drop_last()[k]);
            }
        }
    }
}

/// The extension of a path: what follows the last dot of its last part, where a dot is not the
/// first character.
pub open spec fn extension(s: Seq<char>) -> Option<Seq<char>> {
    match last_part(s) {
        None => None,
        Some(p) => if p == ".."@ || last_place(p, '.') <= 0 {
            None
        } else {
            Some(p.skip(last_place(p, '.') + 1))
        },
    }
}

/// Whether a path names a flat drawing.
pub open spec fn names_drawing(s: Seq<char>) -> bool {
    extension(s) matches Some(e) && (same_letters(e, "svg"@) || same_letters(e, "dxf"@))
}

fn find_last(s: &Vec<char>, end: usize, c: char) -> (r: Option<usize>)
    requires
        end <= s@.len(),
    ensures
        match r {
            Some(i) => last_place(s@.take(end as int), c) == i && i < end,
            None => last_place(s@.take(end as int), c) == -1,
        },
{
    let ghost all = s@.take(end as int);
    let mut i: usize = end;
    assert(all.take(all.len() as int) =~= all);
    while i > 0
        invariant
            i <= end <= s@.len(),
            all == s@.take(end as int),
            last_place(all, c) == last_place(all.take(i as int), c),
        decreases i,
    {
        let ghost t = all.take(i as int);
        assert(t.last() == s@[i - 1]);
        assert(t.drop_last() =~= all.take(i - 1));
        i -= 1;
        if s[i] == c {
            return Some(i);
        }
    }
    None
}

fn part_of(s: &Vec<char>, from: usize, to: usize) -> (r: Vec<char>)
    requires
        from <= to <= s@.len(),
    ensures
        r@ == s@.subrange(from as int, to as int),
{
    let mut out: Vec<char> = Vec::new();
    let mut i: usize = from;
    while i < to
        invariant
            from <= i <= to <= s@.len(),
            out@ =~= s@.subrange(from as int, i as int),
        decreases to - i,
    {
        out.push(s[i]);
        i += 1;
    }
    out
}

fn is_drawing(raw: &str) -> (r: bool)
    ensures
        r == names_drawing(raw@),
{
    let s: Vec<char> = chars_of(raw);
    let mut end: usize = s.len();
    assert(raw@.take(end as int) =~= raw@);
    proof {
        reveal_strlit(".");
        reveal_strlit("..");
    }
    loop
        invariant
            end <= s@.len(),
            s@ == raw@,
            last_part(raw@) == last_part(raw@.take(end as int)),
        decreases end,
    {
        let ghost t = raw@.take(end as int);
        proof {
            reveal_strlit(".");
            reveal_strlit("..");
            lemma_last_place(t, '/');
        }
        let (from, slash): (usize, Option<usize>) = match find_last(&s, end, '/') {
            Some(i) => (i + 1, Some(i)),
            None => (0, None),
        };
        let part: Vec<char> = part_of(&s, from, end);
        assert(part@ =~= t.skip(last_place(t, '/') + 1));
        let dot: bool = part.len() == 1 && part[0] == '.';
        assert(dot == (part@ == "."@)) by {
            if part@.len() == 1 && part@[0] == '.' {
                assert(part@ =~= "."@);
            }
        }
        if part.len() > 0 && !dot {
            let up: bool = part.len() == 2 && part[0] == '.' && part[1] == '.';
            assert(up == (part@ == ".."@)) by {
                if part@.len() == 2 && part@[0] == '.' && part@[1] == '.' {
                    assert(part@ =~= ".."@);
                }
            }
            if up {
                return false;
            }
            assert(part@.take(part@.len() as int) =~= part@);
            return match find_last(&part, part.len(), '.') {
                None => false,
                Some(i) => if i == 0 {
                    false
                } else {
                    let ext: Vec<char> = part_of(&part, i + 1, part.len());
                    assert(ext@ =~= part@.skip(i + 1));
                    let text: String = crate::chars::text_of(&ext);
                    letters_match(text.as_str(), "svg") || letters_match(text.as_str(), "dxf")
                },
            };
        }
        match slash {
            None => {
                return false;
            },
            Some(i) => {
                assert(t.take(i as int) =~= raw@.take(i as int));
                end = i;
            },
        }
    }
}

/// Whether a placeholder stands for a file of a path: no contours for a drawing, an empty mesh for
/// anything else.
pub open spec fn placeholder(raw: Seq<char>, r: Imported) -> bool {
    if names_drawing(raw) {
        r matches Imported::Contours(c) && c@.len() == 0
    } else {
        r matches Imported::Mesh(m) && m.verts@.len() == 0 && m.tris@.len() == 0
    }
}

impl Imported {
    /// What stands for a file that is not there, of the dimension that its extension tells.
    pub fn empty_for(raw: &str) -> (r: Imported)
        ensures
            placeholder(raw@, r),
    {
        if is_drawing(raw) {
            Imported::Contours(Vec::new())
        } else {
            Imported::Mesh(Mesh::new())
        }
    }
}

/// A file that an evaluation needs: a library, by what names it and the directory of the file that
/// does, or a file that a call names.
#[derive(Debug)]
pub enum SourceNeed {
    Scad { from_dir: Name, raw: Name },
    File { raw: Name },
}

/// A file that an evaluation needs, mathematically.
pub enum Need {
    Scad { from_dir: Seq<char>, raw: Seq<char> },
    File { raw: Seq<char> },
}

impl View for SourceNeed {
    type V = Need;

    open spec fn view(&self) -> Need {
        match self {
            SourceNeed::Scad { from_dir, raw } => Need::Scad { from_dir: from_dir@, raw: raw@ },
            SourceNeed::File { raw } => Need::File { raw: raw@ },
        }
    }
}

/// Some needs, mathematically.
pub open spec fn needs_of(ns: Seq<SourceNeed>) -> Seq<Need> {
    Seq::new(ns.len(), |i: int| ns[i]@)
}

/// Needs of files by their paths.
pub open spec fn file_needs(ns: Seq<Seq<char>>) -> Seq<Need> {
    Seq::new(ns.len(), |i: int| Need::File { raw: ns[i] })
}

/// Needs of libraries.
pub open spec fn scad_needs(ns: Seq<(Name, Name)>) -> Seq<Need> {
    Seq::new(ns.len(), |i: int| Need::Scad { from_dir: ns[i].0@, raw: ns[i].1@ })
}

/// The paths of a file table.
pub open spec fn paths(t: Seq<(Name, Imported)>) -> Seq<Seq<char>> {
    Seq::new(t.len(), |i: int| t[i].0@)
}

/// The place of a path in a file table, from the `i`-th on.
pub open spec fn path_from(ps: Seq<Seq<char>>, raw: Seq<char>, i: int) -> Option<int>
    decreases ps.len() - i,
{
    if i >= ps.len() {
        None
    } else if ps[i] == raw {
        Some(i)
    } else {
        path_from(ps, raw, i + 1)
    }
}

/// What a call that names a file gets: what the table holds, or a placeholder.
#[derive(Debug)]
pub enum Requested<'t> {
    Known(&'t Imported),
    Missing(Imported),
}

fn find_path(t: &Vec<(Name, Imported)>, raw: &Name) -> (r: Option<usize>)
    ensures
        match r {
            Some(i) => i < t@.len() && path_from(paths(t@), raw@, 0) == Some(i as int),
            None => path_from(paths(t@), raw@, 0) is None,
        },
{
    let ghost all = paths(t@);
    let mut i: usize = 0;
    while i < t.len()
        invariant
            i <= t@.len(),
            all == paths(t@),
            path_from(all, raw@, 0) == path_from(all, raw@, i as int),
        decreases t@.len() - i,
    {
        assert(all[i as int] == t@[i as int].0@);
        if same_name(&t[i].0, raw) {
            return Some(i);
        }
        i += 1;
    }
    None
}

/// What a call that names a file gets. A file that the table does not hold becomes a need, and a
/// placeholder stands for it; a call that names none gets an empty mesh.
pub fn request_file<'t>(
    raw: Option<Name>,
    files: Option<&'t Vec<(Name, Imported)>>,
    needs: &mut NameSet,
) -> (r: Requested<'t>)
    requires
        old(needs).ok(),
    ensures
        final(needs).ok(),
        match raw {
            None => final(needs)@ == old(needs)@ && (r matches Requested::Missing(
                Imported::Mesh(m),
            ) && m.verts@.len() == 0 && m.tris@.len() == 0),
            Some(p) => match files {
                Some(t) => match path_from(paths(t@), p@, 0) {
                    Some(i) => final(needs)@ == old(needs)@ && r == Requested::Known(&t@[i].1),
                    None => final(needs)@ == old(needs)@.insert(p@) && (r matches
                        Requested::Missing(x) && placeholder(p@, x)),
                },
                None => final(needs)@ == old(needs)@.insert(p@) && (r matches Requested::Missing(x)
                    && placeholder(p@, x)),
            },
        },
{
    let p: Name = match raw {
        None => {
            return Requested::Missing(Imported::Mesh(Mesh::new()));
        },
        Some(p) => p,
    };
    match files {
        Some(t) => match find_path(t, &p) {
            Some(i) => {
                return Requested::Known(&t[i].1);
            },
            None => {},
        },
        None => {},
    }
    let empty: Imported = Imported::empty_for(p.as_str());
    needs.insert(p);
    Requested::Missing(empty)
}

/// The files that were asked for and not there, in order, each once; none are left behind.
pub fn take_file_needs(needs: &mut NameSet) -> (r: Vec<SourceNeed>)
    ensures
        needs_of(r@) == file_needs(old(needs).list()),
        final(needs)@ == Set::<Seq<char>>::empty(),
        final(needs).ok(),
{
    let ghost all = file_needs(needs.list());
    let mut out: Vec<SourceNeed> = Vec::new();
    let mut i: usize = 0;
    while i < needs.len()
        invariant
            i <= needs.list().len(),
            *needs == *old(needs),
            all == file_needs(needs.list()),
            needs_of(out@) =~= all.take(i as int),
        decreases needs.list().len() - i,
    {
        let ghost before = needs_of(out@);
        let one = SourceNeed::File { raw: needs.get(i).clone() };
        let ghost shown = one@;
        assert(all[i as int] == shown);
        out.push(one);
        assert(needs_of(out@) =~= before.push(shown));
        i += 1;
    }
    assert(all.take(all.len() as int) =~= all);
    *needs = NameSet::new();
    out
}

/// A need as it is shown.
pub open spec fn need_text(n: Need) -> Seq<char> {
    match n {
        Need::Scad { from_dir, raw } => "Scad { from_dir: "@ + debug_text(from_dir) + ", raw: "@
            + debug_text(raw) + " }"@,
        Need::File { raw } => "File { raw: "@ + debug_text(raw) + " }"@,
    }
}

/// The texts of needs.
pub open spec fn need_texts(ns: Seq<Need>) -> Seq<Seq<char>> {
    Seq::new(ns.len(), |i: int| need_text(ns[i]))
}

/// Why a program that names files cannot be evaluated without a reader of files.
pub open spec fn unresolved_fault(ns: Seq<Need>) -> Fault {
    Fault::Load(
        "import/surface referenced "@ + decimal(ns.len())
            + " file(s) with no mesh reader (raw eval_program) \u{2014} evaluate through resolve_geometry_* with a reader to supply the meshes: ["@
            + joined(need_texts(ns), ", "@, ns.len()) + "]"@,
    )
}

fn need_shown(n: &SourceNeed) -> (r: String)
    ensures
        r@ == need_text(n@),
{
    match n {
        SourceNeed::Scad { from_dir, raw } => cat5(
            "Scad { from_dir: ",
            debug_of(from_dir.as_str()).as_str(),
            ", raw: ",
            debug_of(raw.as_str()).as_str(),
            " }",
        ),
        SourceNeed::File { raw } => cat3("File { raw: ", debug_of(raw.as_str()).as_str(), " }"),
    }
}

/// The failure of a program that names files where no reader of files is there.
pub fn unresolved_files(needs: &Vec<SourceNeed>) -> (r: Error)
    ensures
        r@ == unresolved_fault(needs_of(needs@)),
{
    let ts: Vec<String> = shown_needs(needs);
    Error::Load(
        cat5(
            "import/surface referenced ",
            dec(needs.len() as u64).as_str(),
            " file(s) with no mesh reader (raw eval_program) \u{2014} evaluate through resolve_geometry_* with a reader to supply the meshes: [",
            join(&ts, ", ").as_str(),
            "]",
        ),
    )
}

/// What an evaluation comes to: a geometry with the messages of the run, or the files it needs.
#[derive(Debug)]
pub enum Resolution {
    Complete { geo: Geo, messages: Vec<Message> },
    Incomplete { needs: Vec<SourceNeed> },
}

/// A function offered to a compiler of numeric functions.
#[derive(Debug)]
pub struct JitDef<'a> {
    pub name: &'a Name,
    pub params: &'a Vec<Parameter>,
    pub body: &'a Expr,
}

/// A constant offered to a compiler of numeric functions.
#[derive(Debug)]
pub struct JitConst<'a> {
    pub name: &'a Name,
    pub value: &'a Expr,
}

/// The functions of a program, offered to a compiler of numeric functions.
pub fn jit_defs<'a>(functions: &Vec<FnDef<'a>>) -> (r: Vec<JitDef<'a>>)
    ensures
        r@.len() == functions@.len(),
        forall|i: int|
            0 <= i < r@.len() ==> (#[trigger] r@[i]).name == functions@[i].name && r@[i].params
                == functions@[i].params && r@[i].body == functions@[i].body,
{
    let mut out: Vec<JitDef<'a>> = Vec::new();
    let mut i: usize = 0;
    while i < functions.len()
        invariant
            i <= functions@.len(),
            out@.len() == i,
            forall|k: int|
                0 <= k < i ==> (#[trigger] out@[k]).name == functions@[k].name && out@[k].params
                    == functions@[k].params && out@[k].body == functions@[k].body,
        decreases functions@.len() - i,
    {
        out.push(
            JitDef {
                name: functions[i].name,
                params: functions[i].params,
                body: functions[i].body,
            },
        );
        i += 1;
    }
    out
}

/// The constants that the root file sees, offered to a compiler of numeric functions.
pub fn jit_consts<'a>(islands: &Vec<Island<'a>>) -> (r: Vec<JitConst<'a>>)
    requires
        uses_ok(isles(islands@)),
    ensures
        Seq::new(r@.len(), |i: int| (r@[i].name@, *r@[i].value)) == visible_constants(
            isles(islands@),
        ),
{
    let ps: Vec<(&'a Name, &'a Expr)> = tagged_globals(islands);
    let ghost all = pairs(ps@);
    let mut out: Vec<JitConst<'a>> = Vec::new();
    let mut i: usize = 0;
    while i < ps.len()
        invariant
            i <= ps@.len(),
            all == pairs(ps@),
            out@.len() == i,
            forall|k: int|
                0 <= k < i ==> ((#[trigger] out@[k]).name@, *out@[k].value) == all[k],
        decreases ps@.len() - i,
    {
        assert(all[i as int] == (ps@[i as int].0@, *ps@[i as int].1));
        out.push(JitConst { name: ps[i].0, value: ps[i].1 });
        i += 1;
    }
    assert(Seq::new(out@.len(), |i: int| (out@[i].name@, *out@[i].value)) =~= all);
    out
}

/// What running the top-level statements of a program gives: the run, the objects they make or
/// why there are none, those under a root modifier, and the files that were asked for and not
/// there.
#[derive(Debug)]
pub struct Driven<'a> {
    pub ctx: Ctx<'a>,
    pub nodes: Result<Vec<Geo>, Failure>,
    pub root: Vec<Geo>,
    pub needs: NameSet,
}

/// Whether two driven runs end alike: in the same state, with the same failure or none, and with
/// the same files asked for.
pub open spec fn end_alike<'a>(a: Driven<'a>, b: Driven<'a>) -> bool {
    &&& a.ctx@ == b.ctx@
    &&& a.needs.list() == b.needs.list()
    &&& match (a.nodes, b.nodes) {
        (Ok(_), Ok(_)) => true,
        (Err(x), Err(y)) => x@ == y@,
        _ => false,
    }
}

/// Whether top-level statements can always be run: how the run ends depends on the run so far and
/// on the scope alone, and a run that did not fail has not spent a budget that was not spent.
pub open spec fn drive_ok<'a, D: Fn(Ctx<'a>, Scope) -> Driven<'a>>(d: D) -> bool {
    &&& forall|c: Ctx<'a>, g: Scope| call_requires(d, (c, g))
    &&& forall|c: Ctx<'a>, g: Scope, o: Driven<'a>| #[trigger]
        call_ensures(d, (c, g), o) ==> o.needs.ok() && o.ctx@.setup.budget == c@.setup.budget && (
        o.nodes is Ok && !spent(c@) ==> !spent(o.ctx@))
    &&& forall|a: Ctx<'a>, b: Ctx<'a>, g: Scope, o: Driven<'a>, p: Driven<'a>|
        a@ == b@ && #[trigger] call_ensures(d, (a, g), o) && #[trigger] call_ensures(d, (b, g), p)
            ==> end_alike(o, p)
}

/// A run of top-level statements that is over: the geometry or why there is none, the run, and the
/// files that were asked for and not there.
#[derive(Debug)]
pub struct Ran<'a> {
    pub tree: Result<Geo, Failure>,
    pub ctx: Ctx<'a>,
    pub needs: NameSet,
}

/// Whether a run is what a driven one comes to: its objects become one geometry.
pub open spec fn merges<'a>(o: Driven<'a>, r: Ran<'a>) -> bool {
    &&& r.needs == o.needs
    &&& match o.nodes {
        Err(e) => r.tree == Err::<Geo, Failure>(e) && r.ctx == o.ctx,
        Ok(nodes) => {
            let items = rendered_items(nodes@, o.root@);
            &&& r.tree matches Ok(g) && top_of(items, g)
            &&& r.ctx@ == (State {
                log: o.ctx@.log + group_lines(items, items.len()),
                ..o.ctx@
            })
        },
    }
}

/// Whether a run is what driving a state from a top-level scope comes to.
pub open spec fn topped<'a, D: Fn(Ctx<'a>, Scope) -> Driven<'a>>(
    s: State,
    global: Scope,
    d: D,
    r: Ran<'a>,
) -> bool {
    exists|c: Ctx<'a>, o: Driven<'a>|
        c@ == s && #[trigger] call_ensures(d, (c, global), o) && merges(o, r)
}

fn run_top<'a, D: Fn(Ctx<'a>, Scope) -> Driven<'a>>(ctx: Ctx<'a>, global: Scope, drive: &D) -> (r:
    Ran<'a>)
    requires
        drive_ok(*drive),
    ensures
        topped(ctx@, global, *drive, r),
        r.needs.ok(),
{
    let o: Driven<'a> = drive(ctx, global);
    let ghost o0 = o;
    assert(o.needs.ok());
    let Driven { ctx: mut after, nodes, root, needs } = o;
    let r: Ran<'a> = match nodes {
        Err(e) => Ran { tree: Err(e), ctx: after, needs },
        Ok(items) => {
            let g: Geo = eval_top(items, root, &mut after.messages);
            Ran { tree: Ok(g), ctx: after, needs }
        },
    };
    assert(merges(o0, r));
    r
}

/// Whether a run is what the statements of a program come to: the assignments are bound, each
/// published, and the statements run in that scope.
pub open spec fn ran<'a, D: Fn(Ctx<'a>, Scope) -> Driven<'a>>(
    s: State,
    ss: Seq<Stmt>,
    scope: Scope,
    f: spec_fn(FloatOp, u64, u64) -> u64,
    h: spec_fn(Job, u64, Seq<Seq<char>>) -> Answer,
    n: nat,
    d: D,
    r: Ran<'a>,
) -> bool {
    let (t, q) = publish_spec(s, ss, scope, 0, f, h, n);
    match q {
        Err(e) => {
            &&& r.tree matches Err(x) && x@ == e
            &&& r.ctx@ == t
            &&& r.needs@ == Set::<Seq<char>>::empty()
        },
        Ok(global) => topped(t, global, d, r),
    }
}

/// Runs the statements of a program: binds the assignments, each published, then drives the
/// statements in that scope, whose objects become one geometry.
pub fn run_stmts<
    'a,
    F: Fn(FloatOp, u64, u64) -> u64,
    H: Fn(&Task<'a>, u64, &Vec<Name>) -> Reply,
    D: Fn(Ctx<'a>, Scope) -> Driven<'a>,
>(
    ctx: Ctx<'a>,
    stmts: &Vec<&'a Stmt>,
    scope: Scope,
    drive: &D,
    fpu: &F,
    h: &H,
    fuel: u64,
) -> (r: Ran<'a>)
    requires
        run_ok(ctx@),
        scope_ok(ctx@.store, scope),
        unit_ok(*fpu),
        host_ok(*h),
        drive_ok(*drive),
    ensures
        ran(
            ctx@,
            stmts_of(stmts@),
            scope,
            unit(*fpu),
            host(*h),
            fuel as nat,
            *drive,
            r,
        ),
        r.needs.ok(),
{
    let mut ctx: Ctx<'a> = ctx;
    match ctx.hoist_scope_publishing(stmts, scope, 0, fpu, h, fuel) {
        Err(e) => Ran { tree: Err(e), ctx, needs: NameSet::new() },
        Ok(global) => run_top(ctx, global, drive),
    }
}

/// Builds the top levels of the files from the `i`-th on, one after the other: each has a root scope
/// of its own, in which its constants are bound and published.
pub open spec fn files_from(
    s: State,
    is: Seq<Isle>,
    i: int,
    preview: bool,
    f: spec_fn(FloatOp, u64, u64) -> u64,
    h: spec_fn(Job, u64, Seq<Seq<char>>) -> Answer,
    n: nat,
) -> (State, Option<Fault>)
    decreases is.len() - i,
{
    if i >= is.len() {
        (s, None)
    } else {
        let t = rooted(s, Some(preview));
        let (u, r) = constants_from(
            t,
            is[i].assignments,
            0,
            t.here(),
            Some(i as usize),
            false,
            f,
            h,
            n,
        );
        match r {
            Err(e) => (u, Some(e)),
            Ok(sc) => files_from(published(u, Some(i as usize), sc), is, i + 1, preview, f, h, n),
        }
    }
}

fn build_files<
    'a,
    F: Fn(FloatOp, u64, u64) -> u64,
    H: Fn(&Task<'a>, u64, &Vec<Name>) -> Reply,
>(
    ctx: &mut Ctx<'a>,
    islands: &Vec<Island<'a>>,
    i: usize,
    preview: bool,
    fpu: &F,
    h: &H,
    fuel: u64,
) -> (r: Result<(), Error>)
    requires
        run_ok(old(ctx)@),
        unit_ok(*fpu),
        host_ok(*h),
    ensures
        (
            final(ctx)@,
            match r {
                Ok(_) => None,
                Err(e) => Some(e@),
            },
        ) == files_from(
            old(ctx)@,
            isles(islands@),
            i as int,
            preview,
            unit(*fpu),
            host(*h),
            fuel as nat,
        ),
        run_ok(final(ctx)@),
    decreases islands@.len() - i,
{
    if i >= islands.len() {
        return Ok(());
    }
    let ghost is = isles(islands@);
    assert(is[i as int] == islands@[i as int]@);
    match ctx.build_island_global(i, &islands[i].assignments, preview, fpu, h, fuel) {
        Err(e) => Err(e),
        Ok(scope) => {
            ctx.publish(Some(i), scope);
            build_files(ctx, islands, i + 1, preview, fpu, h, fuel)
        },
    }
}

fn arm<'a>(ctx: &mut Ctx<'a>, registry: &Registry)
    requires
        run_ok(old(ctx)@),
    ensures
        final(ctx)@ == oracle_armed(old(ctx)@, registry@),
        run_ok(final(ctx)@),
{
    let ghost t = ctx@;
    assert forall|i: int| 0 <= i < ctx.globals@.len() implies scope_ok(
        ctx.store@,
        #[trigger] ctx.globals@[i],
    ) by {
        assert(t.setup.globals[i].at < t.store.len());
    }
    assert forall|i: int| 0 <= i < ctx.functions@.len() implies (
    #[trigger] ctx.functions@[i]).home < ctx.globals@.len() by {
        assert(t.setup.functions[i] == ctx.functions@[i]@);
    }
    let mut more: Vec<Name> = arm_guarded_intrinsics(
        registry,
        &ctx.functions,
        &ctx.store,
        &ctx.globals,
    );
    let ghost added = more@;
    ctx.natives.append(&mut more);
    proof {
        assert(names_of(ctx.natives@) =~= t.setup.natives + names_of(added));
        assert(defs(ctx.functions@).len() == ctx.functions@.len());
        crate::entry::lemma_natives_free(t, ctx@);
    }
}

/// The files of a program, as far as they are there: its statements in order and each file, or the
/// libraries that are missing, each with the directory of the file that names it.
#[derive(Debug)]
pub enum Graph<'a> {
    Complete { stmts: Vec<&'a Stmt>, islands: Vec<Island<'a>> },
    Incomplete(Vec<(Name, Name)>),
}

/// Whether a resolution is what a finished run comes to: its failure; the files it needs, where it
/// needs any; else its geometry and its messages.
pub open spec fn concludes<'a>(r: Ran<'a>, q: Result<Resolution, Failure>) -> bool {
    match r.tree {
        Err(e) => q matches Err(x) && x@ == e@,
        Ok(g) => if r.needs.list().len() > 0 {
            q matches Ok(Resolution::Incomplete { needs }) && needs_of(needs@) == file_needs(
                r.needs.list(),
            )
        } else {
            q matches Ok(Resolution::Complete { geo, messages }) && geo == g && messages
                == r.ctx.messages
        },
    }
}

/// Whether a resolution is what a program comes to whose files are all there: the root file is
/// bound first, then the files it uses; native versions with baked constants join the others; and
/// the statements run.
pub open spec fn resolved<'a, D: Fn(Ctx<'a>, Scope) -> Driven<'a>>(
    s: State,
    ss: Seq<Stmt>,
    is: Seq<Isle>,
    registry: Natives,
    preview: bool,
    f: spec_fn(FloatOp, u64, u64) -> u64,
    h: spec_fn(Job, u64, Seq<Seq<char>>) -> Answer,
    n: nat,
    d: D,
    q: Result<Resolution, Failure>,
) -> bool {
    let (t, g) = publish_spec(s, ss, s.here(), 0, f, h, n);
    match g {
        Err(e) => q matches Err(x) && x@ == e,
        Ok(global) => {
            let (u, fault) = files_from(t, is, 1, preview, f, h, n);
            match fault {
                Some(e) => q matches Err(x) && x@ == nowhere(e),
                None => settles(oracle_armed(u, registry), global, d, q),
            }
        },
    }
}

/// Whether a resolution is what driving a state from a top-level scope comes to.
pub open spec fn settles<'a, D: Fn(Ctx<'a>, Scope) -> Driven<'a>>(
    s: State,
    global: Scope,
    d: D,
    q: Result<Resolution, Failure>,
) -> bool {
    exists|r: Ran<'a>| #[trigger] topped(s, global, d, r) && concludes(r, q)
}

/// Evaluates a program against the files that are there. Libraries that are missing are named
/// before anything runs; files that calls name and that are missing are named once everything has
/// run, with placeholders in their place.
pub fn resolve_source<
    'a,
    F: Fn(FloatOp, u64, u64) -> u64,
    H: Fn(&Task<'a>, u64, &Vec<Name>) -> Reply,
    D: Fn(Ctx<'a>, Scope) -> Driven<'a>,
>(
    graph: &Graph<'a>,
    builtins: Vec<Name>,
    registry: &Registry,
    config: Config,
    preview: bool,
    drive: &D,
    fpu: &F,
    h: &H,
    fuel: u64,
) -> (r: Result<Resolution, Failure>)
    requires
        unit_ok(*fpu),
        host_ok(*h),
        drive_ok(*drive),
        graph matches Graph::Complete { islands, .. } ==> islands@.len() > 0 && uses_ok(
            isles(islands@),
        ),
    ensures
        match *graph {
            Graph::Incomplete(ns) => r matches Ok(Resolution::Incomplete { needs }) && needs_of(
                needs@,
            ) == scad_needs(ns@),
            Graph::Complete { stmts, islands } => resolved(
                begun(
                    visible_functions(isles(islands@)),
                    names_of(builtins@),
                    registry@,
                    islands@.len(),
                    config,
                    Some(preview),
                ),
                stmts_of(stmts@),
                isles(islands@),
                registry@,
                preview,
                unit(*fpu),
                host(*h),
                fuel as nat,
                *drive,
                r,
            ),
        },
{
    match graph {
        Graph::Incomplete(ns) => Ok(Resolution::Incomplete { needs: library_needs(ns) }),
        Graph::Complete { stmts, islands } => {
            let functions: Vec<FnDef<'a>> = tagged_functions(islands);
            proof {
                lemma_visible_homes(isles(islands@));
                assert forall|i: int| 0 <= i < functions@.len() implies (
                #[trigger] functions@[i]).home < islands@.len() by {
                    assert(defs(functions@)[i] == functions@[i]@);
                }
            }
            let (mut ctx, root) = begin(
                functions,
                builtins,
                registry,
                islands.len(),
                config,
                Some(preview),
            );
            let global: Scope = match ctx.hoist_scope_publishing(stmts, root, 0, fpu, h, fuel) {
                Ok(g) => g,
                Err(e) => {
                    return Err(e);
                },
            };
            match build_files(&mut ctx, islands, 1, preview, fpu, h, fuel) {
                Err(e) => {
                    return Err(Failure::nowhere(e));
                },
                Ok(_) => {},
            }
            let ghost u = ctx@;
            arm(&mut ctx, registry);
            let done: Ran<'a> = run_top(ctx, global, drive);
            let ghost kept = done;
            let q: Result<Resolution, Failure> = conclude(done);
            assert(topped(oracle_armed(u, registry@), global, *drive, kept));
            assert(concludes(kept, q));
            assert(settles(oracle_armed(u, registry@), global, *drive, q));
            q
        },
    }
}

fn library_needs(ns: &Vec<(Name, Name)>) -> (r: Vec<SourceNeed>)
    ensures
        needs_of(r@) == scad_needs(ns@),
{
    let ghost all = scad_needs(ns@);
    let mut out: Vec<SourceNeed> = Vec::new();
    let mut i: usize = 0;
    while i < ns.len()
        invariant
            i <= ns@.len(),
            all == scad_needs(ns@),
            needs_of(out@) =~= all.take(i as int),
        decreases ns@.len() - i,
    {
        let ghost before = needs_of(out@);
        let one = SourceNeed::Scad { from_dir: ns[i].0.clone(), raw: ns[i].1.clone() };
        let ghost shown = one@;
        assert(all[i as int] == shown);
        out.push(one);
        assert(needs_of(out@) =~= before.push(shown));
        i += 1;
    }
    assert(all.take(all.len() as int) =~= all);
    out
}

fn conclude<'a>(r: Ran<'a>) -> (q: Result<Resolution, Failure>)
    ensures
        concludes(r, q),
{
    let Ran { tree, ctx, needs } = r;
    let mut needs: NameSet = needs;
    match tree {
        Err(e) => Err(e),
        Ok(geo) => {
            if needs.len() > 0 {
                Ok(Resolution::Incomplete { needs: take_file_needs(&mut needs) })
            } else {
                Ok(Resolution::Complete { geo, messages: ctx.messages })
            }
        },
    }
}

proof fn lemma_merged_homes(ds: Seq<Def>, more: Seq<Def>, home: usize, n: nat, files: nat)
    requires
        home < files,
        n <= more.len(),
        forall|i: int| 0 <= i < ds.len() ==> (#[trigger] ds[i]).home < files,
    ensures
        forall|i: int|
            0 <= i < crate::islands::merged(ds, more, home, n).len() ==> (
            #[trigger] crate::islands::merged(ds, more, home, n)[i]).home < files,
    decreases n,
{
    if n > 0 {
        lemma_merged_homes(ds, more, home, (n - 1) as nat, files);
        lemma_defined_homes(
            crate::islands::merged(ds, more, home, (n - 1) as nat),
            crate::islands::homed(more[n - 1], home),
            0,
            files,
        );
    }
}

proof fn lemma_defined_homes(ds: Seq<Def>, d: Def, i: int, files: nat)
    requires
        0 <= i,
        d.home < files,
        forall|k: int| 0 <= k < ds.len() ==> (#[trigger] ds[k]).home < files,
    ensures
        forall|k: int|
            0 <= k < crate::islands::defined(ds, d, i).len() ==> (
            #[trigger] crate::islands::defined(ds, d, i)[k]).home < files,
    decreases ds.len() - i,
{
    if i < ds.len() && ds[i].name != d.name {
        if text_lt(d.name, ds[i].name) {
            let r = ds.insert(i, d);
            assert forall|k: int| 0 <= k < r.len() implies (#[trigger] r[k]).home < files by {
                if k < i {
                    assert(r[k] == ds[k]);
                } else if k > i {
                    assert(r[k] == ds[k - 1]);
                }
            }
        } else {
            lemma_defined_homes(ds, d, i + 1, files);
        }
    }
}

proof fn lemma_used_homes(is: Seq<Isle>, uses: Seq<usize>, n: nat)
    requires
        n <= uses.len(),
        forall|k: int| 0 <= k < uses.len() ==> (#[trigger] uses[k]) < is.len(),
    ensures
        forall|i: int|
            0 <= i < crate::islands::used_functions(is, uses, n).len() ==> (
            #[trigger] crate::islands::used_functions(is, uses, n)[i]).home < is.len(),
    decreases n,
{
    if n > 0 {
        lemma_used_homes(is, uses, (n - 1) as nat);
        let u = uses[n - 1];
        lemma_merged_homes(
            crate::islands::used_functions(is, uses, (n - 1) as nat),
            is[u as int].functions,
            u,
            is[u as int].functions.len(),
            is.len(),
        );
    }
}

proof fn lemma_visible_homes(is: Seq<Isle>)
    requires
        is.len() > 0,
        uses_ok(is),
    ensures
        forall|i: int|
            0 <= i < visible_functions(is).len() ==> (#[trigger] visible_functions(is)[i]).home
                < is.len(),
{
    assert forall|k: int| 0 <= k < is[0].uses.len() implies (#[trigger] is[0].uses[k])
        < is.len() by {}
    lemma_used_homes(is, is[0].uses, is[0].uses.len());
    lemma_merged_homes(
        crate::islands::used_functions(is, is[0].uses, is[0].uses.len()),
        is[0].functions,
        0,
        is[0].functions.len(),
        is.len(),
    );
}

/// Whether a geometry is what a finished run of a program without a reader of files comes to.
pub open spec fn alone<'a>(r: Ran<'a>, q: Result<Geo, Failure>) -> bool {
    match r.tree {
        Err(e) => q matches Err(x) && x@ == e@,
        Ok(g) => if r.needs.list().len() > 0 {
            q matches Err(x) && x@ == nowhere(unresolved_fault(file_needs(r.needs.list())))
        } else {
            q matches Ok(x) && x == g
        },
    }
}

fn alone_of<'a>(tree: Result<Geo, Failure>, needs: NameSet, Ghost(r): Ghost<Ran<'a>>) -> (q:
    Result<Geo, Failure>)
    requires
        r.tree == tree,
        r.needs == needs,
    ensures
        alone(r, q),
{
    let mut needs: NameSet = needs;
    match tree {
        Err(e) => Err(e),
        Ok(g) => {
            if needs.len() > 0 {
                Err(Failure::nowhere(unresolved_files(&take_file_needs(&mut needs))))
            } else {
                Ok(g)
            }
        },
    }
}

/// The state in which a program on its own begins: one file, which uses none.
pub open spec fn program_begun(
    ss: Seq<Stmt>,
    builtins: Seq<Seq<char>>,
    registry: Natives,
    config: Config,
) -> State {
    begun(functions_of(ss, ss.len()), builtins, registry, 1, config, None)
}

/// A run of a program on its own that has not begun, with its top-level scope.
pub fn build_ctx<'a>(program: &'a Program, builtins: Vec<Name>, registry: &Registry, config: Config) -> (r:
    (Ctx<'a>, Scope))
    ensures
        r.0@ == program_begun(program.stmts@, names_of(builtins@), registry@, config),
        r.1 == r.0@.here(),
        run_ok(r.0@),
        scope_ok(r.0@.store, r.1),
{
    let (_, functions) = program_island(program);
    begin(functions, builtins, registry, 1, config, None)
}

/// A configuration with a number of steps, and without aids.
pub open spec fn bounded(budget: u64) -> Config {
    Config { eval_budget: Some(budget), jit: false, eval_cache: false }
}

/// Whether a geometry, or why there is none, and a number of steps are what a program on its own
/// comes to within a budget.
pub open spec fn metered<'a, D: Fn(Ctx<'a>, Scope) -> Driven<'a>>(
    ss: Seq<Stmt>,
    budget: u64,
    builtins: Seq<Seq<char>>,
    registry: Natives,
    f: spec_fn(FloatOp, u64, u64) -> u64,
    h: spec_fn(Job, u64, Seq<Seq<char>>) -> Answer,
    n: nat,
    d: D,
    r: (Result<Geo, Failure>, u64),
) -> bool {
    let s = program_begun(ss, builtins, registry, bounded(budget));
    exists|q: Ran<'a>| #[trigger]
        ran(s, ss, s.here(), f, h, n, d, q) && alone(q, r.0) && r.1 == q.ctx@.steps
}

/// Evaluates a program on its own to its geometry, within a number of steps, and says how many
/// steps it took, also where it failed.
pub fn evaluate_geometry_metered<
    'a,
    F: Fn(FloatOp, u64, u64) -> u64,
    H: Fn(&Task<'a>, u64, &Vec<Name>) -> Reply,
    D: Fn(Ctx<'a>, Scope) -> Driven<'a>,
>(
    program: &'a Program,
    budget: u64,
    builtins: Vec<Name>,
    registry: &Registry,
    drive: &D,
    fpu: &F,
    h: &H,
    fuel: u64,
) -> (r: (Result<Geo, Failure>, u64))
    requires
        unit_ok(*fpu),
        host_ok(*h),
        drive_ok(*drive),
    ensures
        metered(
            program.stmts@,
            budget,
            names_of(builtins@),
            registry@,
            unit(*fpu),
            host(*h),
            fuel as nat,
            *drive,
            r,
        ),
{
    let config = Config { eval_budget: Some(budget), jit: false, eval_cache: false };
    let (ctx, root) = build_ctx(program, builtins, registry, config);
    let ghost s = ctx@;
    let stmts: Vec<&'a Stmt> = stmt_refs(program);
    let done: Ran<'a> = run_stmts(ctx, &stmts, root, drive, fpu, h, fuel);
    let ghost q = done;
    let steps: u64 = done.ctx.eval_steps;
    let Ran { tree, ctx: _after, needs } = done;
    let out: (Result<Geo, Failure>, u64) = (alone_of(tree, needs, Ghost(q)), steps);
    assert(ran(s, program.stmts@, s.here(), unit(*fpu), host(*h), fuel as nat, *drive, q));
    assert(alone(q, out.0));
    out
}

/// A program costs the same number of steps each time, and fails each time alike or not at all.
pub proof fn law_a_program_has_one_cost<'a, D: Fn(Ctx<'a>, Scope) -> Driven<'a>>(
    ss: Seq<Stmt>,
    budget: u64,
    builtins: Seq<Seq<char>>,
    registry: Natives,
    f: spec_fn(FloatOp, u64, u64) -> u64,
    h: spec_fn(Job, u64, Seq<Seq<char>>) -> Answer,
    n: nat,
    d: D,
    a: (Result<Geo, Failure>, u64),
    b: (Result<Geo, Failure>, u64),
)
    requires
        drive_ok(d),
        metered(ss, budget, builtins, registry, f, h, n, d, a),
        metered(ss, budget, builtins, registry, f, h, n, d, b),
    ensures
        a.1 == b.1,
        match (a.0, b.0) {
            (Ok(_), Ok(_)) => true,
            (Err(x), Err(y)) => x@ == y@,
            _ => false,
        },
{
    let s = program_begun(ss, builtins, registry, bounded(budget));
    let p = choose|q: Ran<'a>| #[trigger]
        ran(s, ss, s.here(), f, h, n, d, q) && alone(q, a.0) && a.1 == q.ctx@.steps;
    let q = choose|q: Ran<'a>| #[trigger]
        ran(s, ss, s.here(), f, h, n, d, q) && alone(q, b.0) && b.1 == q.ctx@.steps;
    let (t, r) = publish_spec(s, ss, s.here(), 0, f, h, n);
    match r {
        Err(_) => {},
        Ok(global) => {
            let (c, o) = choose|c: Ctx<'a>, o: Driven<'a>|
                c@ == t && #[trigger] call_ensures(d, (c, global), o) && merges(o, p);
            let (e, w) = choose|c: Ctx<'a>, o: Driven<'a>|
                c@ == t && #[trigger] call_ensures(d, (c, global), o) && merges(o, q);
            assert(end_alike(o, w));
        },
    }
}

proof fn lemma_hoist_within(
    s: State,
    its: Seq<Item>,
    i: int,
    k: int,
    group: Seq<Sibling>,
    scope: Scope,
    island: Option<usize>,
    f: spec_fn(FloatOp, u64, u64) -> u64,
    h: spec_fn(Job, u64, Seq<Seq<char>>) -> Answer,
    n: nat,
)
    requires
        !spent(s),
    ensures
        ({
            let (t, r) = hoist_from(s, its, i, k, group, scope, island, f, h, n);
            &&& t.setup.budget == s.setup.budget
            &&& r is Ok ==> !spent(t)
        }),
    decreases its.len() - i,
{
    if i < its.len() {
        if shape(its[i]) is Some {
            let t = s.binding(
                scope,
                item_name(its[i]),
                sibling_value(group[k], scope, Some(group)),
            );
            lemma_hoist_within(
                published(t, island, t.here()),
                its,
                i + 1,
                k + 1,
                group,
                t.here(),
                island,
                f,
                h,
                n,
            );
        } else {
            match its[i] {
                Item::Assign(name, e) => {
                    law_run_keeps_bindings(started(s, e, scope), f, h, n);
                    let (t, r) = eval_in(s, e, scope, f, h, n);
                    match r {
                        Err(_) => {},
                        Ok(v) => {
                            let u = t.binding(scope, name, named_value(v, name));
                            lemma_hoist_within(
                                published(u, island, u.here()),
                                its,
                                i + 1,
                                k,
                                group,
                                u.here(),
                                island,
                                f,
                                h,
                                n,
                            );
                        },
                    }
                },
                _ => {},
            }
        }
    }
}

/// A program that gives a geometry took no more steps than it was allowed.
pub proof fn law_a_geometry_is_within_the_budget<'a, D: Fn(Ctx<'a>, Scope) -> Driven<'a>>(
    ss: Seq<Stmt>,
    budget: u64,
    builtins: Seq<Seq<char>>,
    registry: Natives,
    f: spec_fn(FloatOp, u64, u64) -> u64,
    h: spec_fn(Job, u64, Seq<Seq<char>>) -> Answer,
    n: nat,
    d: D,
    r: (Result<Geo, Failure>, u64),
)
    requires
        drive_ok(d),
        metered(ss, budget, builtins, registry, f, h, n, d, r),
        r.0 is Ok,
    ensures
        r.1 <= budget,
{
    let s = program_begun(ss, builtins, registry, bounded(budget));
    let q = choose|q: Ran<'a>| #[trigger]
        ran(s, ss, s.here(), f, h, n, d, q) && alone(q, r.0) && r.1 == q.ctx@.steps;
    let its = as_items(scope_assignments(ss));
    let (closures, group) = grouped(its, its.len(), s.closures);
    lemma_hoist_within(
        State { closures, ..s },
        its,
        0,
        0,
        group,
        s.here(),
        Some(0),
        f,
        h,
        n,
    );
    let (t, end) = publish_spec(s, ss, s.here(), 0, f, h, n);
    match end {
        Err(_) => {},
        Ok(global) => {
            let (c, o) = choose|c: Ctx<'a>, o: Driven<'a>|
                c@ == t && #[trigger] call_ensures(d, (c, global), o) && merges(o, q);
            assert(!spent(o.ctx@));
        },
    }
}

/// Whether a mesh, or why there is none, is what a program on its own comes to.
pub open spec fn program_meshed<'a, D: Fn(Ctx<'a>, Scope) -> Driven<'a>>(
    ss: Seq<Stmt>,
    builtins: Seq<Seq<char>>,
    registry: Natives,
    config: Config,
    f: spec_fn(FloatOp, u64, u64) -> u64,
    h: spec_fn(Job, u64, Seq<Seq<char>>) -> Answer,
    n: nat,
    d: D,
    r: Result<Mesh, Failure>,
) -> bool {
    let s = program_begun(ss, builtins, registry, config);
    exists|q: Ran<'a>, g: Result<Geo, Failure>| #[trigger]
        ran(s, ss, s.here(), f, h, n, d, q) && #[trigger] alone(q, g) && meshed(g, r)
}

/// Evaluates a program on its own to a mesh. A geometry that needs a kernel, and a file that a call
/// names, are failures.
pub fn eval_program<
    'a,
    F: Fn(FloatOp, u64, u64) -> u64,
    H: Fn(&Task<'a>, u64, &Vec<Name>) -> Reply,
    D: Fn(Ctx<'a>, Scope) -> Driven<'a>,
>(
    program: &'a Program,
    builtins: Vec<Name>,
    registry: &Registry,
    config: Config,
    drive: &D,
    fpu: &F,
    h: &H,
    fuel: u64,
) -> (r: Result<Mesh, Failure>)
    requires
        unit_ok(*fpu),
        host_ok(*h),
        drive_ok(*drive),
    ensures
        program_meshed(
            program.stmts@,
            names_of(builtins@),
            registry@,
            config,
            unit(*fpu),
            host(*h),
            fuel as nat,
            *drive,
            r,
        ),
{
    let (ctx, root) = build_ctx(program, builtins, registry, config);
    let ghost s = ctx@;
    let stmts: Vec<&'a Stmt> = stmt_refs(program);
    let done: Ran<'a> = run_stmts(ctx, &stmts, root, drive, fpu, h, fuel);
    let ghost q = done;
    let Ran { tree, ctx: _after, needs } = done;
    let g: Result<Geo, Failure> = alone_of(tree, needs, Ghost(q));
    let ghost g0 = g;
    let r: Result<Mesh, Failure> = match g {
        Err(e) => Err(e),
        Ok(tree) => match mesh_of(tree) {
            Ok(m) => Ok(m),
            Err(e) => Err(Failure::nowhere(e)),
        },
    };
    assert(ran(s, program.stmts@, s.here(), unit(*fpu), host(*h), fuel as nat, *drive, q));
    assert(alone(q, g0));
    assert(meshed(g0, r));
    r
}

/// Whether a mesh is that of a geometry: of nothing, or of a single mesh in any colours. Any other
/// geometry says what it needs.
pub open spec fn meshed(g: Result<Geo, Failure>, r: Result<Mesh, Failure>) -> bool {
    match g {
        Err(e) => r matches Err(x) && x@ == e@,
        Ok(Geo::D3(node)) => match uncoloured(node) {
            GeoNode::Empty => r matches Ok(m) && m.verts@.len() == 0 && m.tris@.len() == 0,
            GeoNode::Leaf(mesh) => r == Ok::<Mesh, Failure>(mesh),
            _ => r matches Err(x) && x@ == nowhere(Fault::Unimplemented(needs_kernel())),
        },
        Ok(Geo::D2(_)) => r matches Err(x) && x@ == nowhere(Fault::Unimplemented(needs_solid())),
    }
}

/// What an audit of native versions comes to: a row for each, or the libraries that are missing.
#[derive(Debug)]
pub enum MatrixResolution {
    Complete(Vec<IntrinsicMatrixRow>),
    Incomplete { needs: Vec<SourceNeed> },
}

/// Audits the native versions against the functions of the files that are there. Nothing runs.
pub fn resolve_intrinsic_matrix<'a>(graph: &Graph<'a>, registry: &Registry) -> (r: MatrixResolution)
    requires
        graph matches Graph::Complete { islands, .. } ==> uses_ok(isles(islands@)),
    ensures
        match *graph {
            Graph::Incomplete(ns) => r matches MatrixResolution::Incomplete { needs } && needs_of(
                needs@,
            ) == scad_needs(ns@),
            Graph::Complete { islands, .. } => r matches MatrixResolution::Complete(rs) && rows(rs@)
                == matrix(registry@, visible_functions(isles(islands@))),
        },
{
    match graph {
        Graph::Incomplete(ns) => MatrixResolution::Incomplete { needs: library_needs(ns) },
        Graph::Complete { islands, .. } => {
            let functions: Vec<FnDef<'a>> = tagged_functions(islands);
            MatrixResolution::Complete(intrinsic_matrix(registry, &functions))
        },
    }
}

/// The audit of native versions where every library is there; a library that cannot be had is a
/// failure that names it, and no audit of half a library.
pub fn require_matrix(m: MatrixResolution) -> (r: Result<Vec<IntrinsicMatrixRow>, Error>)
    ensures
        match m {
            MatrixResolution::Complete(rs) => r == Ok::<_, Error>(rs),
            MatrixResolution::Incomplete { needs } => r matches Err(e) && e@ == Fault::Load(
                "the intrinsic matrix needs a complete library tree; missing: ["@ + joined(
                    need_texts(needs_of(needs@)),
                    ", "@,
                    needs@.len(),
                ) + "]"@,
            ),
        },
{
    match m {
        MatrixResolution::Complete(rs) => Ok(rs),
        MatrixResolution::Incomplete { needs } => {
            let ts: Vec<String> = shown_needs(&needs);
            Err(
                Error::Load(
                    cat3(
                        "the intrinsic matrix needs a complete library tree; missing: [",
                        join(&ts, ", ").as_str(),
                        "]",
                    ),
                ),
            )
        },
    }
}

fn shown_needs(needs: &Vec<SourceNeed>) -> (r: Vec<String>)
    ensures
        texts(r@) == need_texts(needs_of(needs@)),
        r@.len() == needs@.len(),
{
    let ghost ns = needs_of(needs@);
    let ghost all = need_texts(ns);
    let mut ts: Vec<String> = Vec::new();
    let mut i: usize = 0;
    while i < needs.len()
        invariant
            i <= needs@.len(),
            ns == needs_of(needs@),
            all == need_texts(ns),
            ts@.len() == i,
            texts(ts@) =~= all.take(i as int),
        decreases needs@.len() - i,
    {
        let ghost before = texts(ts@);
        assert(ns[i as int] == needs@[i as int]@);
        let one: String = need_shown(&needs[i]);
        let ghost shown = one@;
        assert(all[i as int] == shown);
        ts.push(one);
        assert(texts(ts@) =~= before.push(shown));
        i += 1;
    }
    assert(all.take(all.len() as int) =~= all);
    ts
}

/// The extension of a path is what follows the last dot of its last part, where something comes before that dot; and a
/// path names a flat drawing where that is `svg` or `dxf`, in whatever case.
pub proof fn law_extensions(s: Seq<char>, slash: int, dot: int)
    requires
        -1 <= slash < s.len(),
        slash >= 0 ==> s[slash] == '/',
        slash + 1 < dot < s.len() - 1,
        s[dot] == '.',
        forall|k: int| slash < k < s.len() ==> #[trigger] s[k] != '/',
        forall|k: int| dot < k < s.len() ==> #[trigger] s[k] != '.',
    ensures
        extension(s) == Some(s.skip(dot + 1)),
        names_drawing(s) <==> same_letters(s.skip(dot + 1), "svg"@) || same_letters(s.skip(dot + 1), "dxf"@),
{
    lemma_last_place(s, '/');
    let i = last_place(s, '/');
    if i > slash {
        assert(s[i] != '/');
    } else if i < slash {
        assert(s[slash] != '/');
    }
    let p = s.skip(slash + 1);
    reveal_strlit(".");
    reveal_strlit("..");
    assert("."@.len() == 1 && ".."@.len() == 2);
    assert(p.len() > 2);
    lemma_last_place(p, '.');
    let d = last_place(p, '.');
    let at = dot - slash - 1;
    assert(p[at] == '.');
    assert forall|k: int| at < k < p.len() implies p[k] != '.' by {
        assert(p[k] == s[k + slash + 1]);
    }
    if d > at {
        assert(p[d] != '.');
    } else if d < at {
        assert(p[at] != '.');
    }
    assert(p.skip(at + 1) =~= s.skip(dot + 1));
}

/// A path whose last part has no dot has no extension.
pub proof fn law_no_extension(s: Seq<char>, slash: int)
    requires
        -1 <= slash < s.len() - 1,
        slash >= 0 ==> s[slash] == '/',
        forall|k: int| slash < k < s.len() ==> (#[trigger] s[k]) != '/' && s[k] != '.',
    ensures
        extension(s) is None,
        !names_drawing(s),
{
    lemma_last_place(s, '/');
    let i = last_place(s, '/');
    if i > slash {
        assert(s[i] != '/');
    } else if i < slash {
        assert(s[slash] != '/');
    }
    let p = s.skip(slash + 1);
    lemma_last_place(p, '.');
    reveal_strlit(".");
    assert(p[0] == s[slash + 1]);
    if last_place(p, '.') >= 0 {
        assert(p[last_place(p, '.')] == s[last_place(p, '.') + slash + 1]);
    }
}

/// A path that was asked for before is found where it was first asked for; one that was not is not found.
pub proof fn law_paths_are_found(ps: Seq<Seq<char>>, raw: Seq<char>, i: int)
    requires
        0 <= i < ps.len(),
        forall|j: int| 0 <= j < i ==> #[trigger] ps[j] != raw,
    ensures
        ps[i] == raw ==> path_from(ps, raw, 0) == Some(i),
        !ps.contains(raw) ==> path_from(ps, raw, 0) is None,
{
    lemma_path_from(ps, raw, 0, i);
}

proof fn lemma_path_from(ps: Seq<Seq<char>>, raw: Seq<char>, k: int, i: int)
    requires
        0 <= k <= ps.len(),
        0 <= i < ps.len(),
        forall|j: int| 0 <= j < i ==> #[trigger] ps[j] != raw,
    ensures
        k <= i && ps[i] == raw ==> path_from(ps, raw, k) == Some(i),
        !ps.contains(raw) ==> path_from(ps, raw, k) is None,
    decreases ps.len() - k,
{
    if k < ps.len() {
        lemma_path_from(ps, raw, k + 1, i);
    }
}

/// A run that failed comes to its failure; one that needs files names them all and has no geometry yet; and one that needs
/// none is complete, with its geometry and all its messages.
pub proof fn law_conclusions<'a>(r: Ran<'a>, q: Result<Resolution, Failure>)
    requires
        concludes(r, q),
    ensures
        r.tree is Err <==> q is Err,
        r.tree matches Err(e) ==> (q matches Err(x) && x@ == e@),
        q matches Ok(Resolution::Complete { geo, messages }) ==> r.needs.list().len() == 0 && r.tree == Ok::<Geo, Failure>(
            geo,
        ) && messages == r.ctx.messages,
        q matches Ok(Resolution::Incomplete { needs }) ==> r.needs.list().len() > 0 && needs_of(needs@) == file_needs(
            r.needs.list(),
        ),
{
}

}

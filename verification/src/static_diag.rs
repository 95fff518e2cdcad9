//! Warnings that need no evaluation: names that are assigned more than once in one scope.
//!
//! They come for every scope of the source, called or not: a file, the body of a module, each branch
//! of an `if` and the children of a module call are scopes of their own; a bare block is part of the
//! scope around it. An included file is part of the scope of the file that includes it, so that the
//! two assignments of a name may stand in different files.

use vstd::prelude::*;

use crate::ast::{same_name, Name, Stmt, StmtKind};
use crate::chars::{cat, cat5, dec, decimal};
use crate::hoist::{flat, flat_one, flatten_blocks, lemma_flat_append, stmts_of};
use crate::message::{lemma_lines_push, lines, Line, Message};

verus! {

/// A name that is assigned again: where, and where it was assigned first. Places are bytes of a file.
#[derive(Debug)]
pub struct Overwrite {
    pub at: usize,
    pub name: Name,
    pub first: usize,
    pub first_file: usize,
    pub at_file: usize,
}

/// A name that is assigned again, mathematically.
pub struct Clash {
    pub at: usize,
    pub name: Seq<char>,
    pub first: usize,
    pub first_file: usize,
    pub at_file: usize,
}

impl View for Overwrite {
    type V = Clash;

    open spec fn view(&self) -> Clash {
        Clash {
            at: self.at,
            name: self.name@,
            first: self.first,
            first_file: self.first_file,
            at_file: self.at_file,
        }
    }
}

/// Some reassignments, mathematically.
pub open spec fn clashes(os: Seq<Overwrite>) -> Seq<Clash> {
    Seq::new(os.len(), |i: int| os[i]@)
}

/// Statements of one file.
pub open spec fn marked(ss: Seq<Stmt>, file: usize) -> Seq<(Stmt, usize)> {
    Seq::new(ss.len(), |i: int| (ss[i], file))
}

/// Statements with their files, mathematically.
pub open spec fn tagged(ts: Seq<(&Stmt, usize)>) -> Seq<(Stmt, usize)> {
    Seq::new(ts.len(), |i: int| (*ts[i].0, ts[i].1))
}

/// Statements with their files, with the blocks among them opened up.
pub open spec fn tagged_flat(ts: Seq<(Stmt, usize)>) -> Seq<(Stmt, usize)>
    decreases ts.len(),
{
    if ts.len() == 0 {
        Seq::empty()
    } else {
        tagged_flat(ts.drop_last()) + marked(flat_one(ts.last().0), ts.last().1)
    }
}

/// Whether a statement assigns a name.
pub open spec fn assigns(s: Stmt, name: Seq<char>) -> bool {
    match s.kind {
        StmtKind::Assignment { name: n, .. } => n@ == name,
        _ => false,
    }
}

/// The first of the first `n` statements that assigns a name.
pub open spec fn earlier(ts: Seq<(Stmt, usize)>, name: Seq<char>, n: nat) -> Option<int>
    decreases n,
{
    if n == 0 {
        None
    } else {
        match earlier(ts, name, (n - 1) as nat) {
            Some(i) => Some(i),
            None => if assigns(ts[n - 1].0, name) {
                Some(n - 1)
            } else {
                None
            },
        }
    }
}

/// The reassignments among the first `n` statements of one scope. Each cites the first assignment of
/// its name.
pub open spec fn own(ts: Seq<(Stmt, usize)>, n: nat) -> Seq<Clash>
    decreases n,
{
    if n == 0 {
        Seq::empty()
    } else {
        let rest = own(ts, (n - 1) as nat);
        match ts[n - 1].0.kind {
            StmtKind::Assignment { name, .. } => match earlier(ts, name@, (n - 1) as nat) {
                Some(i) => rest.push(
                    Clash {
                        at: ts[n - 1].0.span.start,
                        name: name@,
                        first: ts[i].0.span.start,
                        first_file: ts[i].1,
                        at_file: ts[n - 1].1,
                    },
                ),
                None => rest,
            },
            _ => rest,
        }
    }
}

/// The reassignments in the scopes inside a statement, the last scope first.
pub open spec fn found_in(s: Stmt, file: usize) -> Seq<Clash>
    decreases s, 0nat,
{
    match s.kind {
        StmtKind::Block(inner) => found_among(inner@, file),
        StmtKind::ModuleDef { body, .. } => found_body(*body, file),
        StmtKind::If { yes, no, .. } => found_scope(no@, file) + found_scope(yes@, file),
        StmtKind::Module(mi) => found_scope(mi.children@, file),
        _ => Seq::empty(),
    }
}

/// The reassignments in a scope of one statement and in the scopes inside it.
pub open spec fn found_body(s: Stmt, file: usize) -> Seq<Clash>
    decreases s, 1nat,
{
    own(marked(flat_one(s), file), flat_one(s).len()) + found_in(s, file)
}

/// The reassignments in a scope and in the scopes inside it.
pub open spec fn found_scope(ss: Seq<Stmt>, file: usize) -> Seq<Clash>
    decreases ss, 1nat,
{
    own(marked(flat(ss), file), flat(ss).len()) + found_among(ss, file)
}

/// The reassignments in the scopes inside some statements, the last scope first.
pub open spec fn found_among(ss: Seq<Stmt>, file: usize) -> Seq<Clash>
    decreases ss, 0nat,
{
    if ss.len() == 0 {
        Seq::empty()
    } else {
        found_in(ss.last(), file) + found_among(ss.drop_last(), file)
    }
}

/// The reassignments in the scopes inside some statements of several files, the last scope first.
pub open spec fn found_inside(ts: Seq<(Stmt, usize)>) -> Seq<Clash>
    decreases ts.len(),
{
    if ts.len() == 0 {
        Seq::empty()
    } else {
        found_in(ts.last().0, ts.last().1) + found_inside(ts.drop_last())
    }
}

/// The reassignments in a scope of several files and in the scopes inside it.
pub open spec fn scanned(ts: Seq<(Stmt, usize)>) -> Seq<Clash> {
    own(tagged_flat(ts), tagged_flat(ts).len()) + found_inside(ts)
}

proof fn lemma_flat_drop_last(ss: Seq<Stmt>)
    requires
        ss.len() > 0,
    ensures
        flat(ss) == flat(ss.drop_last()) + flat_one(ss.last()),
{
    assert(ss =~= ss.drop_last() + seq![ss.last()]);
    lemma_flat_append(ss.drop_last(), seq![ss.last()]);
    lemma_flat_single(ss.last());
}

proof fn lemma_flat_single(s: Stmt)
    ensures
        flat(seq![s]) == flat_one(s),
{
    let one = seq![s];
    assert(one.subrange(1, 1) =~= Seq::<Stmt>::empty());
    assert(flat(one.subrange(1, 1)) == Seq::<Stmt>::empty());
    assert(flat(one) =~= flat_one(s));
}

proof fn lemma_marked(ss: Seq<Stmt>, file: usize)
    ensures
        tagged_flat(marked(ss, file)) == marked(flat(ss), file),
        found_inside(marked(ss, file)) == found_among(ss, file),
    decreases ss.len(),
{
    let ts = marked(ss, file);
    if ss.len() > 0 {
        lemma_marked(ss.drop_last(), file);
        lemma_flat_drop_last(ss);
        assert(ts.drop_last() =~= marked(ss.drop_last(), file));
        assert(tagged_flat(ts) =~= marked(flat(ss), file));
    } else {
        assert(tagged_flat(ts) =~= marked(flat(ss), file));
    }
}

/// A scope of one file is scanned as such.
proof fn lemma_scanned_marked(ss: Seq<Stmt>, file: usize)
    ensures
        scanned(marked(ss, file)) == found_scope(ss, file),
{
    lemma_marked(ss, file);
}

proof fn lemma_scanned_body(s: Stmt, file: usize)
    ensures
        scanned(seq![(s, file)]) == found_body(s, file),
{
    let ts = seq![(s, file)];
    assert(ts.drop_last() =~= Seq::<(Stmt, usize)>::empty());
    assert(tagged_flat(ts.drop_last()) == Seq::<(Stmt, usize)>::empty());
    assert(found_inside(ts.drop_last()) == Seq::<Clash>::empty());
    assert(tagged_flat(ts) =~= marked(flat_one(s), file));
    assert(found_inside(ts) =~= found_in(s, file));
}

proof fn lemma_inside_append(a: Seq<(Stmt, usize)>, b: Seq<(Stmt, usize)>)
    ensures
        found_inside(a + b) == found_inside(b) + found_inside(a),
    decreases b.len(),
{
    if b.len() == 0 {
        assert(a + b =~= a);
        assert(found_inside(a + b) =~= found_inside(b) + found_inside(a));
    } else {
        lemma_inside_append(a, b.drop_last());
        assert((a + b).drop_last() =~= a + b.drop_last());
        assert(found_inside(a + b) =~= found_inside(b) + found_inside(a));
    }
}

/// Opening up the blocks leaves the scopes inside where they are.
proof fn lemma_inside_flat_one(s: Stmt, file: usize)
    ensures
        found_inside(marked(flat_one(s), file)) == found_in(s, file),
    decreases s, 1nat,
{
    match s.kind {
        StmtKind::Block(inner) => {
            lemma_inside_flat(inner@, file);
        },
        _ => {
            let ts = marked(flat_one(s), file);
            assert(ts.drop_last() =~= Seq::<(Stmt, usize)>::empty());
            assert(ts.last() == (s, file));
            assert(found_inside(ts.drop_last()) == Seq::<Clash>::empty());
            assert(found_inside(ts) =~= found_in(s, file));
        },
    }
}

proof fn lemma_inside_flat(ss: Seq<Stmt>, file: usize)
    ensures
        found_inside(marked(flat(ss), file)) == found_among(ss, file),
    decreases ss, 0nat,
{
    if ss.len() == 0 {
        assert(marked(flat(ss), file).len() == 0);
    } else {
        lemma_inside_flat(ss.drop_last(), file);
        lemma_inside_flat_one(ss.last(), file);
        lemma_flat_drop_last(ss);
        let a = marked(flat(ss.drop_last()), file);
        let b = marked(flat_one(ss.last()), file);
        assert(marked(flat(ss), file) =~= a + b);
        lemma_inside_append(a, b);
    }
}

proof fn lemma_inside_tagged_flat(ts: Seq<(Stmt, usize)>)
    ensures
        found_inside(tagged_flat(ts)) == found_inside(ts),
    decreases ts.len(),
{
    if ts.len() > 0 {
        lemma_inside_tagged_flat(ts.drop_last());
        lemma_inside_flat_one(ts.last().0, ts.last().1);
        lemma_inside_append(
            tagged_flat(ts.drop_last()),
            marked(flat_one(ts.last().0), ts.last().1),
        );
    }
}

/// Opened up, there are no blocks.
proof fn lemma_flat_one_no_block(s: Stmt)
    ensures
        forall|i: int| 0 <= i < flat_one(s).len() ==> !((#[trigger] flat_one(s)[i]).kind is Block),
    decreases s, 1nat,
{
    match s.kind {
        StmtKind::Block(inner) => {
            lemma_flat_no_block(inner@);
        },
        _ => {},
    }
}

proof fn lemma_flat_no_block(ss: Seq<Stmt>)
    ensures
        forall|i: int| 0 <= i < flat(ss).len() ==> !((#[trigger] flat(ss)[i]).kind is Block),
    decreases ss, 0nat,
{
    if ss.len() > 0 {
        lemma_flat_no_block(ss.drop_last());
        lemma_flat_one_no_block(ss.last());
        lemma_flat_drop_last(ss);
    }
}

proof fn lemma_tagged_flat_no_block(ts: Seq<(Stmt, usize)>)
    ensures
        forall|i: int|
            0 <= i < tagged_flat(ts).len() ==> !((#[trigger] tagged_flat(ts)[i]).0.kind is Block),
    decreases ts.len(),
{
    if ts.len() > 0 {
        let a = tagged_flat(ts.drop_last());
        let b = marked(flat_one(ts.last().0), ts.last().1);
        lemma_tagged_flat_no_block(ts.drop_last());
        lemma_flat_one_no_block(ts.last().0);
        assert forall|i: int| 0 <= i < tagged_flat(ts).len() implies !((
        #[trigger] tagged_flat(ts)[i]).0.kind is Block) by {
            if i < a.len() {
                assert(tagged_flat(ts)[i] == a[i]);
            } else {
                assert(tagged_flat(ts)[i] == b[i - a.len()]);
                assert(b[i - a.len()].0 == flat_one(ts.last().0)[i - a.len()]);
            }
        }
    }
}

/// How much there is to scan in a statement, itself and its scopes included.
spec fn bulk_one(s: Stmt) -> nat
    decreases s,
{
    match s.kind {
        StmtKind::Block(inner) => 1 + bulk(inner@),
        StmtKind::ModuleDef { body, .. } => 2 + bulk_one(*body),
        StmtKind::If { yes, no, .. } => 3 + bulk(yes@) + bulk(no@),
        StmtKind::Module(mi) => 2 + bulk(mi.children@),
        _ => 1,
    }
}

spec fn bulk(ss: Seq<Stmt>) -> nat
    decreases ss,
{
    if ss.len() == 0 {
        0
    } else {
        bulk(ss.drop_last()) + bulk_one(ss.last())
    }
}

spec fn tagged_bulk(ts: Seq<(Stmt, usize)>) -> nat
    decreases ts.len(),
{
    if ts.len() == 0 {
        0
    } else {
        tagged_bulk(ts.drop_last()) + bulk_one(ts.last().0)
    }
}

proof fn lemma_bulk_marked(ss: Seq<Stmt>, file: usize)
    ensures
        tagged_bulk(marked(ss, file)) == bulk(ss),
    decreases ss.len(),
{
    if ss.len() > 0 {
        lemma_bulk_marked(ss.drop_last(), file);
        assert(marked(ss, file).drop_last() =~= marked(ss.drop_last(), file));
    }
}

proof fn lemma_bulk_append(a: Seq<(Stmt, usize)>, b: Seq<(Stmt, usize)>)
    ensures
        tagged_bulk(a + b) == tagged_bulk(a) + tagged_bulk(b),
    decreases b.len(),
{
    if b.len() == 0 {
        assert(a + b =~= a);
    } else {
        lemma_bulk_append(a, b.drop_last());
        assert((a + b).drop_last() =~= a + b.drop_last());
    }
}

proof fn lemma_bulk_flat_one(s: Stmt, file: usize)
    ensures
        tagged_bulk(marked(flat_one(s), file)) <= bulk_one(s),
    decreases s, 1nat,
{
    match s.kind {
        StmtKind::Block(inner) => {
            lemma_bulk_flat(inner@, file);
        },
        _ => {
            let ts = marked(flat_one(s), file);
            assert(ts.drop_last() =~= Seq::<(Stmt, usize)>::empty());
            assert(ts.last() == (s, file));
            assert(tagged_bulk(ts.drop_last()) == 0);
        },
    }
}

proof fn lemma_bulk_flat(ss: Seq<Stmt>, file: usize)
    ensures
        tagged_bulk(marked(flat(ss), file)) <= bulk(ss),
    decreases ss, 0nat,
{
    if ss.len() == 0 {
        assert(marked(flat(ss), file).len() == 0);
    } else {
        lemma_bulk_flat(ss.drop_last(), file);
        lemma_bulk_flat_one(ss.last(), file);
        lemma_flat_drop_last(ss);
        let a = marked(flat(ss.drop_last()), file);
        let b = marked(flat_one(ss.last()), file);
        assert(marked(flat(ss), file) =~= a + b);
        lemma_bulk_append(a, b);
    }
}

proof fn lemma_bulk_tagged_flat(ts: Seq<(Stmt, usize)>)
    ensures
        tagged_bulk(tagged_flat(ts)) <= tagged_bulk(ts),
    decreases ts.len(),
{
    if ts.len() > 0 {
        lemma_bulk_tagged_flat(ts.drop_last());
        lemma_bulk_flat_one(ts.last().0, ts.last().1);
        lemma_bulk_append(
            tagged_flat(ts.drop_last()),
            marked(flat_one(ts.last().0), ts.last().1),
        );
    }
}

/// What some scopes still give, the last first.
spec fn pending(ps: Seq<Vec<(&Stmt, usize)>>) -> Seq<Clash>
    decreases ps.len(),
{
    if ps.len() == 0 {
        Seq::empty()
    } else {
        scanned(tagged(ps.last()@)) + pending(ps.drop_last())
    }
}

spec fn load(ps: Seq<Vec<(&Stmt, usize)>>) -> nat
    decreases ps.len(),
{
    if ps.len() == 0 {
        0
    } else {
        1 + tagged_bulk(tagged(ps.last()@)) + load(ps.drop_last())
    }
}

proof fn lemma_push_scope(ps: Seq<Vec<(&Stmt, usize)>>, scope: Vec<(&Stmt, usize)>)
    ensures
        pending(ps.push(scope)) == scanned(tagged(scope@)) + pending(ps),
        load(ps.push(scope)) == 1 + tagged_bulk(tagged(scope@)) + load(ps),
{
    assert(ps.push(scope).drop_last() =~= ps);
}

/// Opens up the blocks among statements with their files.
pub fn flatten_tagged<'a>(stmts: &Vec<(&'a Stmt, usize)>) -> (r: Vec<(&'a Stmt, usize)>)
    ensures
        tagged(r@) == tagged_flat(tagged(stmts@)),
{
    let ghost all = tagged(stmts@);
    let mut out: Vec<(&'a Stmt, usize)> = Vec::new();
    let mut i: usize = 0;
    assert(tagged(out@) =~= tagged_flat(all.take(0)));
    while i < stmts.len()
        invariant
            i <= stmts@.len(),
            all == tagged(stmts@),
            tagged(out@) == tagged_flat(all.take(i as int)),
        decreases stmts@.len() - i,
    {
        let file: usize = stmts[i].1;
        let mut one: Vec<&'a Stmt> = Vec::new();
        one.push(stmts[i].0);
        let inner = flatten_blocks(&one);
        let ghost fresh = marked(flat_one(*stmts@[i as int].0), file);
        proof {
            assert(stmts_of(one@) =~= seq![*stmts@[i as int].0]);
            lemma_flat_single(*stmts@[i as int].0);
            assert(all.take(i + 1).drop_last() =~= all.take(i as int));
            assert(all.take(i + 1).last() == (*stmts@[i as int].0, file));
        }
        let ghost before = tagged(out@);
        let mut j: usize = 0;
        assert(tagged(out@) =~= before + fresh.take(0));
        while j < inner.len()
            invariant
                j <= inner@.len(),
                stmts_of(inner@).len() == fresh.len(),
                forall|k: int| 0 <= k < fresh.len() ==> #[trigger] fresh[k] == (*inner@[k], file),
                tagged(out@) == before + fresh.take(j as int),
            decreases inner@.len() - j,
        {
            let ghost was = out@;
            out.push((inner[j], file));
            assert(tagged(out@) =~= tagged(was).push(fresh[j as int]));
            assert(before + fresh.take(j + 1) =~= (before + fresh.take(j as int)).push(
                fresh[j as int],
            ));
            j += 1;
        }
        assert(fresh.take(fresh.len() as int) =~= fresh);
        i += 1;
    }
    assert(all.take(all.len() as int) =~= all);
    out
}

/// The first of the first `n` statements that assigns a name.
fn find_earlier(ts: &Vec<(&Stmt, usize)>, name: &Name, n: usize) -> (r: Option<usize>)
    requires
        n <= ts@.len(),
    ensures
        match r {
            Some(i) => earlier(tagged(ts@), name@, n as nat) == Some(i as int) && i < n,
            None => earlier(tagged(ts@), name@, n as nat) is None,
        },
{
    let ghost all = tagged(ts@);
    let mut i: usize = 0;
    while i < n
        invariant
            i <= n <= ts@.len(),
            all == tagged(ts@),
            earlier(all, name@, i as nat) is None,
        decreases n - i,
    {
        let hit: bool = match &ts[i].0.kind {
            StmtKind::Assignment { name: other, .. } => same_name(other, name),
            _ => false,
        };
        assert(all[i as int].0 == *ts@[i as int].0);
        if hit {
            proof {
                assert(earlier(all, name@, (i + 1) as nat) == Some(i as int));
                lemma_earlier_stays(all, name@, (i + 1) as nat, n as nat);
            }
            return Some(i);
        }
        i += 1;
    }
    None
}

proof fn lemma_earlier_stays(ts: Seq<(Stmt, usize)>, name: Seq<char>, n: nat, m: nat)
    requires
        n <= m,
        earlier(ts, name, n) is Some,
    ensures
        earlier(ts, name, m) == earlier(ts, name, n),
    decreases m,
{
    if n < m {
        lemma_earlier_stays(ts, name, n, (m - 1) as nat);
    }
}

/// The statements of a scope that lies in one file.
fn mark<'a>(ss: &'a Vec<Stmt>, file: usize) -> (r: Vec<(&'a Stmt, usize)>)
    ensures
        tagged(r@) == marked(ss@, file),
{
    let mut r: Vec<(&'a Stmt, usize)> = Vec::new();
    let mut i: usize = 0;
    while i < ss.len()
        invariant
            i <= ss@.len(),
            r@.len() == i,
            forall|k: int| 0 <= k < i ==> *(#[trigger] r@[k]).0 == ss@[k] && r@[k].1 == file,
        decreases ss@.len() - i,
    {
        r.push((&ss[i], file));
        i += 1;
    }
    assert(tagged(r@) =~= marked(ss@, file));
    r
}

/// Puts the scopes inside a statement on a stack.
fn push_scopes<'a>(s: &'a Stmt, file: usize, stack: &mut Vec<Vec<(&'a Stmt, usize)>>)
    requires
        !(s.kind is Block),
    ensures
        pending(final(stack)@) == found_in(*s, file) + pending(old(stack)@),
        load(final(stack)@) <= bulk_one(*s) + load(old(stack)@),
{
    let ghost before = stack@;
    match &s.kind {
        StmtKind::ModuleDef { body, .. } => {
            let mut scope: Vec<(&'a Stmt, usize)> = Vec::new();
            scope.push((&**body, file));
            proof {
                assert(tagged(scope@) =~= seq![(**body, file)]);
                lemma_scanned_body(**body, file);
                assert(tagged(scope@).drop_last() =~= Seq::<(Stmt, usize)>::empty());
                assert(tagged_bulk(tagged(scope@).drop_last()) == 0);
                lemma_push_scope(before, scope);
            }
            stack.push(scope);
        },
        StmtKind::If { yes, no, .. } => {
            let a = mark(yes, file);
            let b = mark(no, file);
            proof {
                lemma_push_scope(before, a);
                lemma_push_scope(before.push(a), b);
                lemma_scanned_marked(yes@, file);
                lemma_scanned_marked(no@, file);
                lemma_bulk_marked(yes@, file);
                lemma_bulk_marked(no@, file);
            }
            stack.push(a);
            stack.push(b);
            assert(pending(stack@) =~= found_in(*s, file) + pending(before));
        },
        StmtKind::Module(mi) => {
            let a = mark(&mi.children, file);
            proof {
                lemma_push_scope(before, a);
                lemma_scanned_marked(mi.children@, file);
                lemma_bulk_marked(mi.children@, file);
            }
            stack.push(a);
        },
        _ => {
            assert(pending(stack@) =~= found_in(*s, file) + pending(before));
        },
    }
}

/// The reassignments in a scope and in the scopes inside it. The scopes that are still to be scanned
/// stand on a stack of their own, so that no nesting of the source is too deep.
fn scan_scopes(stmts: Vec<(&Stmt, usize)>) -> (r: Vec<Overwrite>)
    ensures
        clashes(r@) == scanned(tagged(stmts@)),
{
    let ghost all = scanned(tagged(stmts@));
    let mut found: Vec<Overwrite> = Vec::new();
    let mut stack: Vec<Vec<(&Stmt, usize)>> = Vec::new();
    proof {
        lemma_push_scope(stack@, stmts);
    }
    stack.push(stmts);
    assert(clashes(found@) + pending(stack@) =~= all);
    loop
        invariant
            all == scanned(tagged(stmts@)),
            clashes(found@) + pending(stack@) == all,
        decreases load(stack@),
    {
        let ghost before = stack@;
        match stack.pop() {
            Some(scope) => {
                let ghost rest = stack@;
                assert(before.drop_last() =~= rest);
                let ts = flatten_tagged(&scope);
                let ghost fl = tagged(ts@);
                let ghost start = clashes(found@);
                proof {
                    lemma_inside_tagged_flat(tagged(scope@));
                    lemma_tagged_flat_no_block(tagged(scope@));
                    lemma_bulk_tagged_flat(tagged(scope@));
                    assert(clashes(found@) =~= start + own(fl, 0));
                    assert(found_inside(fl.take(0)) + pending(rest) =~= pending(rest));
                }
                let mut i: usize = 0;
                while i < ts.len()
                    invariant
                        i <= ts@.len(),
                        fl == tagged(ts@),
                        forall|k: int| 0 <= k < fl.len() ==> !((#[trigger] fl[k]).0.kind is Block),
                        clashes(found@) == start + own(fl, i as nat),
                        pending(stack@) == found_inside(fl.take(i as int)) + pending(rest),
                        load(stack@) <= tagged_bulk(fl.take(i as int)) + load(rest),
                    decreases ts@.len() - i,
                {
                    let stmt = ts[i].0;
                    let file: usize = ts[i].1;
                    let ghost was = found@;
                    assert(fl[i as int] == (*stmt, file));
                    assert(fl.take(i + 1).drop_last() =~= fl.take(i as int));
                    assert(fl.take(i + 1).last() == fl[i as int]);
                    match &stmt.kind {
                        StmtKind::Assignment { name, .. } => {
                            match find_earlier(&ts, name, i) {
                                Some(k) => {
                                    assert(fl[k as int] == (*ts@[k as int].0, ts@[k as int].1));
                                    let o = Overwrite {
                                        at: stmt.span.start,
                                        name: name.clone(),
                                        first: ts[k].0.span.start,
                                        first_file: ts[k].1,
                                        at_file: file,
                                    };
                                    let ghost c = o@;
                                    found.push(o);
                                    assert(clashes(found@) =~= clashes(was).push(c));
                                    assert(start + own(fl, (i + 1) as nat) =~= (start + own(
                                        fl,
                                        i as nat,
                                    )).push(c));
                                },
                                None => {},
                            }
                        },
                        _ => {},
                    }
                    push_scopes(stmt, file, &mut stack);
                    proof {
                        assert(pending(stack@) =~= found_inside(fl.take(i + 1)) + pending(rest));
                    }
                    i += 1;
                }
                proof {
                    assert(fl.take(fl.len() as int) =~= fl);
                    assert(clashes(found@) + pending(stack@) =~= all);
                }
            },
            None => {
                assert(clashes(found@) =~= all);
                return found;
            },
        }
    }
}

/// A reassignment put in its place among others that are in order: behind those that stand no later
/// in their file.
pub open spec fn filed(cs: Seq<Clash>, c: Clash) -> Seq<Clash>
    decreases cs.len(),
{
    if cs.len() == 0 || cs.last().at <= c.at {
        cs.push(c)
    } else {
        filed(cs.drop_last(), c).push(cs.last())
    }
}

/// The first `n` reassignments in the order of where they stand; those that stand at one place keep
/// their order.
pub open spec fn in_order(cs: Seq<Clash>, n: nat) -> Seq<Clash>
    decreases n,
{
    if n == 0 {
        Seq::empty()
    } else {
        filed(in_order(cs, (n - 1) as nat), cs[n - 1])
    }
}

/// Whether reassignments are in the order of where they stand.
pub open spec fn ordered(cs: Seq<Clash>) -> bool {
    forall|i: int, j: int| 0 <= i <= j < cs.len() ==> cs[i].at <= cs[j].at
}

proof fn lemma_filed(cs: Seq<Clash>, c: Clash)
    requires
        ordered(cs),
    ensures
        ordered(filed(cs, c)),
        filed(cs, c).to_multiset() == cs.push(c).to_multiset(),
        forall|k: int| 0 <= k < filed(cs, c).len() ==> (#[trigger] filed(cs, c)[k]) == c || cs.contains(
            filed(cs, c)[k],
        ),
    decreases cs.len(),
{
    broadcast use vstd::seq_lib::group_to_multiset_ensures;

    if cs.len() == 0 || cs.last().at <= c.at {
    } else {
        let front = cs.drop_last();
        lemma_filed(front, c);
        let r = filed(front, c);
        assert forall|k: int| 0 <= k < r.len() implies (#[trigger] r[k]).at <= cs.last().at by {
            if r[k] != c {
                let j = front.index_of(r[k]);
                assert(front[j] == r[k] && front[j] == cs[j]);
            }
        }
        assert(front.push(cs.last()) =~= cs);
        assert(cs.to_multiset() == front.to_multiset().insert(cs.last()));
        assert(cs.push(c).to_multiset() == front.to_multiset().insert(cs.last()).insert(c));
        assert(front.push(c).to_multiset() == front.to_multiset().insert(c));
        assert(filed(cs, c).to_multiset() == front.to_multiset().insert(c).insert(cs.last()));
        assert(front.to_multiset().insert(c).insert(cs.last()) =~= front.to_multiset().insert(
            cs.last(),
        ).insert(c));
        assert forall|k: int| 0 <= k < filed(cs, c).len() implies (#[trigger] filed(cs, c)[k]) == c
            || cs.contains(filed(cs, c)[k]) by {
            if k < r.len() {
                assert(filed(cs, c)[k] == r[k]);
                if r[k] != c {
                    let j = front.index_of(r[k]);
                    assert(cs[j] == r[k]);
                }
            } else {
                assert(filed(cs, c)[k] == cs[cs.len() - 1]);
            }
        }
    }
}

/// The warnings of a scope come in the order of where its reassignments stand, and each comes once.
pub proof fn law_warnings_are_in_order(cs: Seq<Clash>, n: nat)
    requires
        n <= cs.len(),
    ensures
        ordered(in_order(cs, n)),
        in_order(cs, n).to_multiset() == cs.take(n as int).to_multiset(),
    decreases n,
{
    broadcast use vstd::seq_lib::group_to_multiset_ensures;

    if n == 0 {
        assert(cs.take(0) =~= Seq::empty());
    } else {
        law_warnings_are_in_order(cs, (n - 1) as nat);
        lemma_filed(in_order(cs, (n - 1) as nat), cs[n - 1]);
        assert(cs.take(n as int) =~= cs.take(n - 1).push(cs[n - 1]));
    }
}

fn file_one(os: &mut Vec<Overwrite>, o: Overwrite)
    ensures
        clashes(final(os)@) == filed(clashes(old(os)@), o@),
{
    let ghost all = clashes(os@);
    let mut i: usize = os.len();
    let ghost c = o@;
    let ghost goal = filed(all, c);
    assert(all.take(all.len() as int) =~= all);
    assert(filed(all.take(i as int), c) + all.skip(i as int) =~= goal);
    while i > 0 && os[i - 1].at > o.at
        invariant
            i <= os@.len(),
            all == clashes(os@),
            c == o@,
            *os == *old(os),
            filed(all.take(i as int), c) + all.skip(i as int) == goal,
        decreases i,
    {
        proof {
            let cs = all.take(i as int);
            assert(cs.last() == os@[i - 1]@);
            assert(cs.drop_last() =~= all.take(i - 1));
            assert(filed(all.take(i - 1), c) + all.skip(i - 1) =~= filed(cs, c) + all.skip(
                i as int,
            ));
        }
        i -= 1;
    }
    proof {
        if i > 0 {
            assert(all.take(i as int).last() == os@[i - 1]@);
        }
    }
    os.insert(i, o);
    assert(clashes(os@) =~= all.insert(i as int, c));
    assert(clashes(os@) =~= all.take(i as int).push(c) + all.skip(i as int));
}

fn sort_by_place(found: Vec<Overwrite>) -> (r: Vec<Overwrite>)
    ensures
        clashes(r@) == in_order(clashes(found@), found@.len()),
{
    let mut r: Vec<Overwrite> = Vec::new();
    let mut i: usize = 0;
    assert(clashes(r@) =~= Seq::empty());
    while i < found.len()
        invariant
            i <= found@.len(),
            clashes(r@) == in_order(clashes(found@), i as nat),
        decreases found@.len() - i,
    {
        let o = &found[i];
        assert(clashes(found@)[i as int] == o@);
        file_one(
            &mut r,
            Overwrite {
                at: o.at,
                name: o.name.clone(),
                first: o.first,
                first_file: o.first_file,
                at_file: o.at_file,
            },
        );
        i += 1;
    }
    r
}

/// What a warning needs to know of a file: its text, and what it is called. A file that was handed in
/// as a mere text has no name.
#[derive(Debug)]
pub struct FileInfo {
    pub source: Vec<u8>,
    pub path: Option<String>,
}

/// What a warning needs to know of a file, mathematically.
pub struct FileText {
    pub source: Seq<u8>,
    pub path: Option<Seq<char>>,
}

impl View for FileInfo {
    type V = FileText;

    open spec fn view(&self) -> FileText {
        FileText {
            source: self.source@,
            path: match self.path {
                Some(p) => Some(p@),
                None => None,
            },
        }
    }
}

/// Some files, mathematically.
pub open spec fn file_texts(fs: Seq<FileInfo>) -> Seq<FileText> {
    Seq::new(fs.len(), |i: int| fs[i]@)
}

/// The line ends among the first `n` bytes of a text.
pub open spec fn line_ends(text: Seq<u8>, n: nat) -> nat
    decreases n,
{
    if n == 0 {
        0
    } else {
        line_ends(text, (n - 1) as nat) + if text[n - 1] == 10 {
            1nat
        } else {
            0nat
        }
    }
}

/// The line that a byte stands in. Lines are counted from one.
pub open spec fn line_at(text: Seq<u8>, offset: usize) -> nat {
    1 + line_ends(
        text,
        if offset <= text.len() {
            offset as nat
        } else {
            text.len()
        },
    )
}

/// The line that a byte stands in.
pub fn offset_to_line(text: &Vec<u8>, offset: usize) -> (r: u64)
    requires
        text@.len() < u64::MAX,
    ensures
        r == line_at(text@, offset),
{
    let n: usize = if offset <= text.len() {
        offset
    } else {
        text.len()
    };
    let mut ends: u64 = 0;
    let mut i: usize = 0;
    while i < n
        invariant
            i <= n <= text@.len(),
            text@.len() < u64::MAX,
            ends == line_ends(text@, i as nat),
            ends <= i,
        decreases n - i,
    {
        if text[i] == 10 {
            ends += 1;
        }
        i += 1;
    }
    ends + 1
}

/// What is said of a reassignment.
#[derive(Debug, Clone, Copy, PartialEq, Eq, Structural)]
pub enum Verdict {
    /// That the name was overwritten.
    Bare,
    /// That it was, in a named file.
    Named(usize),
    /// Nothing.
    Silent,
}

/// What is said of a reassignment. Both in the main file: the bare warning. Both in one other file:
/// one that names it, but nothing where both are on one line, as when a file is included twice. First
/// in the main file and then elsewhere: one that names the main file. First elsewhere and then in
/// another file: nothing.
pub open spec fn verdict_of(c: Clash, first_line: nat, at_line: nat) -> Verdict {
    if c.first_file == 0 && c.at_file == 0 {
        Verdict::Bare
    } else if c.first_file == c.at_file {
        if first_line == at_line {
            Verdict::Silent
        } else {
            Verdict::Named(c.first_file)
        }
    } else if c.first_file == 0 {
        Verdict::Named(0)
    } else {
        Verdict::Silent
    }
}

/// What is said of a reassignment.
pub fn verdict(o: &Overwrite, first_line: u64, at_line: u64) -> (r: Verdict)
    ensures
        r == verdict_of(o@, first_line as nat, at_line as nat),
{
    if o.first_file == 0 && o.at_file == 0 {
        Verdict::Bare
    } else if o.first_file == o.at_file {
        if first_line == at_line {
            Verdict::Silent
        } else {
            Verdict::Named(o.first_file)
        }
    } else if o.first_file == 0 {
        Verdict::Named(0)
    } else {
        Verdict::Silent
    }
}

/// The bare warning is for the main file alone; nothing is said where the first assignment stands
/// in another file and the second in yet another, or on the same line; and in every other case the file
/// of the first assignment is named.
pub proof fn law_verdicts(c: Clash, first_line: nat, at_line: nat)
    ensures
        verdict_of(c, first_line, at_line) == Verdict::Bare <==> c.first_file == 0 && c.at_file == 0,
        verdict_of(c, first_line, at_line) == Verdict::Silent <==> c.first_file != 0 && (c.at_file
            != c.first_file || first_line == at_line),
        verdict_of(c, first_line, at_line) == Verdict::Named(c.first_file) <==> !(c.first_file == 0
            && c.at_file == 0) && !(c.first_file != 0 && (c.at_file != c.first_file || first_line
            == at_line)),
        verdict_of(c, first_line, at_line) matches Verdict::Named(f) ==> f == c.first_file,
{
}

/// The text of a file; one that is not known is empty.
pub open spec fn source_of(files: Seq<FileText>, i: usize) -> Seq<u8> {
    if i < files.len() {
        files[i as int].source
    } else {
        Seq::empty()
    }
}

/// The name of a file, where it has one.
pub open spec fn path_of(files: Seq<FileText>, i: usize) -> Option<Seq<char>> {
    if i < files.len() {
        files[i as int].path
    } else {
        None
    }
}

/// The warning that names no file.
pub open spec fn bare_text(name: Seq<char>, line: nat) -> Seq<char> {
    "\""@ + name + "\" was assigned on line "@ + decimal(line) + " but was overwritten"@
}

/// The warning that names a file.
pub open spec fn named_text(name: Seq<char>, line: nat, path: Seq<char>) -> Seq<char> {
    "\""@ + name + "\" was assigned on line "@ + decimal(line) + (" of \""@ + path
        + "\" but was overwritten"@)
}

/// The warning of a reassignment, where there is one.
pub open spec fn warning_of(c: Clash, files: Seq<FileText>) -> Option<Seq<char>> {
    let first_line = line_at(source_of(files, c.first_file), c.first);
    let at_line = line_at(source_of(files, c.at_file), c.at);
    match verdict_of(c, first_line, at_line) {
        Verdict::Silent => None,
        Verdict::Bare => Some(bare_text(c.name, first_line)),
        Verdict::Named(file) => Some(
            match path_of(files, file) {
                Some(path) => named_text(c.name, first_line, path),
                None => bare_text(c.name, first_line),
            },
        ),
    }
}

/// Whether the lines of every file can be counted.
pub open spec fn files_fit(files: Seq<FileText>) -> bool {
    forall|i: int| 0 <= i < files.len() ==> (#[trigger] files[i]).source.len() < u64::MAX
}

fn line_in(files: &Vec<FileInfo>, i: usize, offset: usize) -> (r: u64)
    requires
        files_fit(file_texts(files@)),
    ensures
        r == line_at(source_of(file_texts(files@), i), offset),
{
    if i < files.len() {
        assert(file_texts(files@)[i as int] == files@[i as int]@);
        offset_to_line(&files[i].source, offset)
    } else {
        assert(line_ends(Seq::<u8>::empty(), 0) == 0);
        1
    }
}

fn bare(name: &str, line: u64) -> (r: String)
    ensures
        r@ == bare_text(name@, line as nat),
{
    cat5("\"", name, "\" was assigned on line ", &dec(line), " but was overwritten")
}

/// The warning of a reassignment, where there is one.
fn render(o: &Overwrite, files: &Vec<FileInfo>) -> (r: Option<Message>)
    requires
        files_fit(file_texts(files@)),
    ensures
        match r {
            Some(m) => warning_of(o@, file_texts(files@)) is Some && m@ == Line::Warning(
                warning_of(o@, file_texts(files@))->0,
            ),
            None => warning_of(o@, file_texts(files@)) is None,
        },
{
    let first_line: u64 = line_in(files, o.first_file, o.first);
    let at_line: u64 = line_in(files, o.at_file, o.at);
    match verdict(o, first_line, at_line) {
        Verdict::Silent => None,
        Verdict::Bare => Some(Message::Warning(bare(&o.name, first_line))),
        Verdict::Named(file) => {
            if file < files.len() {
                assert(file_texts(files@)[file as int] == files@[file as int]@);
                match &files[file].path {
                    Some(path) => {
                        let tail = cat(&cat(" of \"", path), "\" but was overwritten");
                        return Some(
                            Message::Warning(
                                cat5("\"", &o.name, "\" was assigned on line ", &dec(first_line), &tail),
                            ),
                        );
                    },
                    None => {},
                }
            }
            Some(Message::Warning(bare(&o.name, first_line)))
        },
    }
}

/// The warnings of the first `n` reassignments.
pub open spec fn warnings_of(cs: Seq<Clash>, files: Seq<FileText>, n: nat) -> Seq<Line>
    decreases n,
{
    if n == 0 {
        Seq::empty()
    } else {
        let rest = warnings_of(cs, files, (n - 1) as nat);
        match warning_of(cs[n - 1], files) {
            Some(text) => rest.push(Line::Warning(text)),
            None => rest,
        }
    }
}

/// The warnings of a scope and of the scopes inside it, in the order of where the reassignments stand.
pub open spec fn scope_warnings(scope: Seq<(Stmt, usize)>, files: Seq<FileText>) -> Seq<Line> {
    let found = scanned(scope);
    let cs = in_order(found, found.len());
    warnings_of(cs, files, cs.len())
}

/// The warnings of the first `n` scopes, scope by scope.
pub open spec fn all_warnings(
    scopes: Seq<Vec<(&Stmt, usize)>>,
    files: Seq<FileText>,
    n: nat,
) -> Seq<Line>
    decreases n,
{
    if n == 0 {
        Seq::empty()
    } else {
        all_warnings(scopes, files, (n - 1) as nat) + scope_warnings(tagged(scopes[n - 1]@), files)
    }
}

/// The warnings of all scopes: the main file's, then those of the files that it uses.
pub fn overwritten_assignments(scopes: Vec<Vec<(&Stmt, usize)>>, files: &Vec<FileInfo>) -> (r: Vec<
    Message,
>)
    requires
        files_fit(file_texts(files@)),
    ensures
        lines(r@) == all_warnings(scopes@, file_texts(files@), scopes@.len()),
{
    broadcast use lemma_lines_push;

    let ghost texts = file_texts(files@);
    let mut out: Vec<Message> = Vec::new();
    let mut i: usize = 0;
    assert(lines(out@) =~= Seq::empty());
    while i < scopes.len()
        invariant
            i <= scopes@.len(),
            texts == file_texts(files@),
            files_fit(texts),
            lines(out@) == all_warnings(scopes@, texts, i as nat),
        decreases scopes@.len() - i,
    {
        let mut scope: Vec<(&Stmt, usize)> = Vec::new();
        let mut k: usize = 0;
        while k < scopes[i].len()
            invariant
                i < scopes@.len(),
                k <= scopes@[i as int]@.len(),
                scope@ == scopes@[i as int]@.take(k as int),
            decreases scopes@[i as int]@.len() - k,
        {
            scope.push(scopes[i][k]);
            assert(scope@ =~= scopes@[i as int]@.take(k + 1));
            k += 1;
        }
        assert(scope@ =~= scopes@[i as int]@);
        let found = sort_by_place(scan_scopes(scope));
        let ghost cs = clashes(found@);
        let ghost before = lines(out@);
        let mut j: usize = 0;
        assert(lines(out@) =~= before + warnings_of(cs, texts, 0));
        while j < found.len()
            invariant
                j <= found@.len(),
                texts == file_texts(files@),
                files_fit(texts),
                cs == clashes(found@),
                lines(out@) == before + warnings_of(cs, texts, j as nat),
            decreases found@.len() - j,
        {
            assert(cs[j as int] == found@[j as int]@);
            let ghost was = lines(out@);
            match render(&found[j], files) {
                Some(m) => {
                    let ghost l = m@;
                    out.push(m);
                    assert(lines(out@) =~= was.push(l));
                    assert(before + warnings_of(cs, texts, (j + 1) as nat) =~= (before
                        + warnings_of(cs, texts, j as nat)).push(l));
                },
                None => {},
            }
            j += 1;
        }
        i += 1;
    }
    out
}

/// Statements of one scope that assign pairwise different names do not clash.
pub proof fn law_different_names_do_not_clash(ts: Seq<(Stmt, usize)>, n: nat)
    requires
        n <= ts.len(),
        forall|i: int, j: int, name: Seq<char>|
            0 <= i < j < ts.len() && #[trigger] assigns(ts[i].0, name) ==> !#[trigger] assigns(
                ts[j].0,
                name,
            ),
    ensures
        own(ts, n) == Seq::<Clash>::empty(),
    decreases n,
{
    if n > 0 {
        law_different_names_do_not_clash(ts, (n - 1) as nat);
        match ts[n - 1].0.kind {
            StmtKind::Assignment { name, .. } => {
                lemma_earlier_found(ts, name@, (n - 1) as nat);
                assert(assigns(ts[n - 1].0, name@));
            },
            _ => {},
        }
    }
}

proof fn lemma_earlier_found(ts: Seq<(Stmt, usize)>, name: Seq<char>, n: nat)
    ensures
        earlier(ts, name, n) matches Some(i) ==> 0 <= i < n && assigns(ts[i].0, name),
    decreases n,
{
    if n > 0 {
        lemma_earlier_found(ts, name, (n - 1) as nat);
    }
}

/// An assignment of a name that was assigned before it in the same scope is a reassignment: it cites the first of
/// those, where both stand and in which files. One of a name that was not is none, nor is any other statement.
pub proof fn law_reassignments(ts: Seq<(Stmt, usize)>, n: nat, name: Seq<char>, i: int)
    requires
        0 < n <= ts.len(),
    ensures
        0 <= i < n - 1 && assigns(ts[n - 1].0, name) && assigns(ts[i].0, name) && (forall|j: int|
            0 <= j < i ==> !assigns((#[trigger] ts[j]).0, name)) ==> own(ts, n) == own(ts, (n - 1) as nat).push(
            Clash {
                at: ts[n - 1].0.span.start,
                name,
                first: ts[i].0.span.start,
                first_file: ts[i].1,
                at_file: ts[n - 1].1,
            },
        ),
        assigns(ts[n - 1].0, name) && (forall|j: int| 0 <= j < n - 1 ==> !assigns((#[trigger] ts[j]).0, name)) ==> own(
            ts,
            n,
        ) == own(ts, (n - 1) as nat),
        !(ts[n - 1].0.kind is Assignment) ==> own(ts, n) == own(ts, (n - 1) as nat),
{
    lemma_earlier(ts, name, (n - 1) as nat);
    if 0 <= i < n - 1 && assigns(ts[i].0, name) && (forall|j: int|
        0 <= j < i ==> !assigns((#[trigger] ts[j]).0, name)) {
        match earlier(ts, name, (n - 1) as nat) {
            Some(k) => {
                if k < i {
                    assert(!assigns(ts[k].0, name));
                } else if i < k {
                    assert(!assigns(ts[i].0, name));
                }
            },
            None => {
                assert(!assigns(ts[i].0, name));
            },
        }
    }
}

proof fn lemma_earlier(ts: Seq<(Stmt, usize)>, name: Seq<char>, n: nat)
    requires
        n <= ts.len(),
    ensures
        match earlier(ts, name, n) {
            Some(k) => 0 <= k < n && assigns(ts[k].0, name) && forall|j: int|
                0 <= j < k ==> !assigns((#[trigger] ts[j]).0, name),
            None => forall|j: int| 0 <= j < n ==> !assigns((#[trigger] ts[j]).0, name),
        },
    decreases n,
{
    if n > 0 {
        lemma_earlier(ts, name, (n - 1) as nat);
    }
}

/// The branches of a condition, the children of a module call and the body of a module are scopes of their own; a
/// bare block is none.
pub proof fn law_inner_scopes(s: Stmt, file: usize)
    ensures
        match s.kind {
            StmtKind::If { yes, no, .. } => found_in(s, file) == found_scope(no@, file) + found_scope(yes@, file),
            StmtKind::Module(mi) => found_in(s, file) == found_scope(mi.children@, file),
            StmtKind::Block(inner) => found_in(s, file) == found_among(inner@, file),
            StmtKind::Assignment { .. } => found_in(s, file).len() == 0,
            _ => true,
        },
{
}

/// The first byte stands in the first line, and a byte stands in the next line after the one before it exactly where
/// that one ends a line; past the end it is the last line.
pub proof fn law_lines(text: Seq<u8>, at: usize)
    ensures
        line_at(text, 0) == 1,
        at < text.len() && at < usize::MAX ==> line_at(text, (at + 1) as usize) == line_at(text, at) + if text[at as int]
            == 10 {
            1nat
        } else {
            0nat
        },
        at >= text.len() ==> line_at(text, at) == 1 + line_ends(text, text.len()),
{
}

/// A reassignment in the main file is told with the name and the line of its first assignment; one in a file that has
/// a name with that, too.
pub proof fn law_warning_texts(c: Clash, files: Seq<FileText>)
    ensures
        ({
            let line = line_at(source_of(files, c.first_file), c.first);
            let at = line_at(source_of(files, c.at_file), c.at);
            &&& c.first_file == 0 && c.at_file == 0 ==> warning_of(c, files) == Some(
                "\""@ + c.name + "\" was assigned on line "@ + decimal(line) + " but was overwritten"@,
            )
            &&& c.first_file == c.at_file && c.first_file != 0 && line == at ==> warning_of(c, files) is None
            &&& c.first_file != 0 && c.at_file != c.first_file ==> warning_of(c, files) is None
            &&& (c.first_file == c.at_file && c.first_file != 0 && line != at || c.first_file == 0 && c.at_file != 0) ==> (
            if c.first_file < files.len() && files[c.first_file as int].path is Some {
                warning_of(c, files) == Some(
                    "\""@ + c.name + "\" was assigned on line "@ + decimal(line) + (" of \""@
                        + files[c.first_file as int].path->Some_0 + "\" but was overwritten"@),
                )
            } else {
                warning_of(c, files) == Some(
                    "\""@ + c.name + "\" was assigned on line "@ + decimal(line) + " but was overwritten"@,
                )
            })
        }),
{
}

} // verus!

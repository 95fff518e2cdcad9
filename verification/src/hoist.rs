//! The order in which the bindings of a scope take effect.
//!
//! All assignments of a scope belong to the scope as a whole: one name is bound once, where it
//! first occurs, to what it is last assigned. Bare blocks only group statements, so what they
//! assign belongs to the scope around them.

use vstd::prelude::*;

use crate::ast::{same_name, Expr, ExprKind, Name, Parameter, Stmt, StmtKind};

verus! {

/// Some statements, mathematically.
pub open spec fn stmts_of(ss: Seq<&Stmt>) -> Seq<Stmt> {
    Seq::new(ss.len(), |i: int| *ss[i])
}

/// A statement with the blocks in it opened up.
pub open spec fn flat_one(s: Stmt) -> Seq<Stmt>
    decreases s,
{
    match s.kind {
        StmtKind::Block(inner) => flat(inner@),
        _ => seq![s],
    }
}

/// Statements with the blocks among them opened up.
pub open spec fn flat(ss: Seq<Stmt>) -> Seq<Stmt>
    decreases ss,
{
    if ss.len() == 0 {
        Seq::empty()
    } else {
        flat_one(ss[0]) + flat(ss.subrange(1, ss.len() as int))
    }
}

/// How many statements there are, blocks and what is in them included.
spec fn bulk_one(s: Stmt) -> nat
    decreases s,
{
    match s.kind {
        StmtKind::Block(inner) => 1 + bulk(inner@),
        _ => 1,
    }
}

spec fn bulk(ss: Seq<Stmt>) -> nat
    decreases ss,
{
    if ss.len() == 0 {
        0
    } else {
        bulk_one(ss[0]) + bulk(ss.subrange(1, ss.len() as int))
    }
}

/// What a stack of statements still gives, the top first.
spec fn pending(stack: Seq<&Stmt>) -> Seq<Stmt>
    decreases stack.len(),
{
    if stack.len() == 0 {
        Seq::empty()
    } else {
        flat_one(*stack.last()) + pending(stack.drop_last())
    }
}

spec fn load(stack: Seq<&Stmt>) -> nat
    decreases stack.len(),
{
    if stack.len() == 0 {
        0
    } else {
        bulk_one(*stack.last()) + load(stack.drop_last())
    }
}

/// Statements put on a stack from the `k`-th on, the first of them on top.
spec fn laid(ss: Seq<Stmt>, k: int, stack: Seq<&Stmt>) -> Seq<&Stmt>
    decreases ss.len() - k,
{
    if k >= ss.len() || k < 0 {
        stack
    } else {
        laid(ss, k + 1, stack).push(&ss[k])
    }
}

proof fn lemma_laid(ss: Seq<Stmt>, k: int, stack: Seq<&Stmt>)
    requires
        0 <= k <= ss.len(),
    ensures
        pending(laid(ss, k, stack)) == flat(ss.subrange(k, ss.len() as int)) + pending(stack),
        load(laid(ss, k, stack)) == bulk(ss.subrange(k, ss.len() as int)) + load(stack),
    decreases ss.len() - k,
{
    let rest = ss.subrange(k, ss.len() as int);
    if k < ss.len() {
        lemma_laid(ss, k + 1, stack);
        let below = laid(ss, k + 1, stack);
        assert(below.push(&ss[k]).drop_last() =~= below);
        assert(rest.subrange(1, rest.len() as int) =~= ss.subrange(k + 1, ss.len() as int));
        assert(flat(rest) == flat_one(ss[k]) + flat(ss.subrange(k + 1, ss.len() as int)));
        assert(pending(laid(ss, k, stack)) =~= flat(rest) + pending(stack));
    } else {
        assert(rest =~= Seq::<Stmt>::empty());
        assert(pending(stack) =~= flat(rest) + pending(stack));
    }
}

/// Puts statements on a stack, the first of them on top.
fn lay<'a>(ss: &'a Vec<Stmt>, stack: &mut Vec<&'a Stmt>)
    ensures
        pending(final(stack)@) == flat(ss@) + pending(old(stack)@),
        load(final(stack)@) == bulk(ss@) + load(old(stack)@),
{
    let ghost before = stack@;
    let mut i: usize = ss.len();
    while i > 0
        invariant
            i <= ss@.len(),
            stack@ == laid(ss@, i as int, before),
        decreases i,
    {
        i -= 1;
        stack.push(&ss[i]);
    }
    proof {
        lemma_laid(ss@, 0, before);
        assert(ss@.subrange(0, ss@.len() as int) =~= ss@);
    }
}

proof fn lemma_pending_all(stack: Seq<&Stmt>, ss: Seq<&Stmt>, k: int)
    requires
        0 <= k <= ss.len(),
        stack.len() == ss.len() - k,
        forall|i: int| 0 <= i < stack.len() ==> #[trigger] stack[i] == ss[ss.len() - 1 - i],
    ensures
        pending(stack) == flat(stmts_of(ss).subrange(k, ss.len() as int)),
    decreases stack.len(),
{
    let all = stmts_of(ss);
    let rest = all.subrange(k, ss.len() as int);
    if stack.len() > 0 {
        lemma_pending_all(stack.drop_last(), ss, k + 1);
        assert(stack.last() == ss[k]);
        assert(rest[0] == *ss[k]);
        assert(rest.subrange(1, rest.len() as int) =~= all.subrange(k + 1, ss.len() as int));
    }
}

/// Opens up the blocks among statements.
pub fn flatten_blocks<'a>(stmts: &Vec<&'a Stmt>) -> (r: Vec<&'a Stmt>)
    ensures
        stmts_of(r@) == flat(stmts_of(stmts@)),
{
    let mut out: Vec<&'a Stmt> = Vec::new();
    let mut stack: Vec<&'a Stmt> = Vec::new();
    let mut i: usize = stmts.len();
    while i > 0
        invariant
            i <= stmts@.len(),
            stack@.len() == stmts@.len() - i,
            forall|k: int|
                0 <= k < stack@.len() ==> #[trigger] stack@[k] == stmts@[stmts@.len() - 1 - k],
        decreases i,
    {
        i -= 1;
        stack.push(stmts[i]);
    }
    proof {
        lemma_pending_all(stack@, stmts@, 0);
        assert(stmts_of(stmts@).subrange(0, stmts@.len() as int) =~= stmts_of(stmts@));
        assert(stmts_of(out@) + pending(stack@) =~= flat(stmts_of(stmts@)));
    }
    loop
        invariant
            stmts_of(out@) + pending(stack@) == flat(stmts_of(stmts@)),
        decreases load(stack@),
    {
        let ghost before = stack@;
        let ghost out_before = out@;
        match stack.pop() {
            Some(s) => {
                assert(before.drop_last() =~= stack@);
                match &s.kind {
                    StmtKind::Block(inner) => {
                        lay(inner, &mut stack);
                    },
                    _ => {
                        out.push(s);
                        assert(stmts_of(out@) =~= stmts_of(out_before).push(*s));
                        assert(stmts_of(out@) + pending(stack@) =~= stmts_of(out_before) + pending(
                            before,
                        ));
                    },
                }
            },
            None => {
                assert(stmts_of(out@) =~= stmts_of(out@) + pending(stack@));
                return out;
            },
        }
    }
}

/// A list of named things after one more: a known name keeps its place and takes the new thing.
pub open spec fn entered(
    order: Seq<(Seq<char>, Expr)>,
    name: Seq<char>,
    value: Expr,
    i: int,
) -> Seq<(Seq<char>, Expr)>
    decreases order.len() - i,
{
    if i >= order.len() {
        order.push((name, value))
    } else if order[i].0 == name {
        order.update(i, (name, value))
    } else {
        entered(order, name, value, i + 1)
    }
}

/// The assignments among the first `n` of some statements in the order in which they take effect.
pub open spec fn assigned(ss: Seq<Stmt>, n: nat) -> Seq<(Seq<char>, Expr)>
    decreases n,
{
    if n == 0 {
        Seq::empty()
    } else {
        match ss[n - 1].kind {
            StmtKind::Assignment { name, value } => entered(
                assigned(ss, (n - 1) as nat),
                name@,
                value,
                0,
            ),
            _ => assigned(ss, (n - 1) as nat),
        }
    }
}

/// The assignments of a scope in the order in which they take effect.
pub open spec fn scope_assignments(ss: Seq<Stmt>) -> Seq<(Seq<char>, Expr)> {
    assigned(flat(ss), flat(ss).len())
}

/// Some named expressions, mathematically.
pub open spec fn pairs(ps: Seq<(&Name, &Expr)>) -> Seq<(Seq<char>, Expr)> {
    Seq::new(ps.len(), |i: int| (ps[i].0@, *ps[i].1))
}

/// Adds a named expression; a known name keeps its place.
pub fn enter_pair<'a>(order: &mut Vec<(&'a Name, &'a Expr)>, name: &'a Name, value: &'a Expr)
    ensures
        pairs(final(order)@) == entered(pairs(old(order)@), name@, *value, 0),
{
    let ghost before = pairs(order@);
    let mut i: usize = 0;
    while i < order.len()
        invariant
            i <= order@.len(),
            *order == *old(order),
            before == pairs(order@),
            entered(before, name@, *value, 0) == entered(before, name@, *value, i as int),
        decreases order@.len() - i,
    {
        if same_name(order[i].0, name) {
            order.set(i, (name, value));
            assert(pairs(order@) =~= before.update(i as int, (name@, *value)));
            return;
        }
        i += 1;
    }
    order.push((name, value));
    assert(pairs(order@) =~= before.push((name@, *value)));
}

/// The assignments of a scope in the order in which they take effect: each name once, where it
/// first occurs, with what it is last assigned.
pub fn hoisted_assignments<'a>(stmts: &Vec<&'a Stmt>) -> (r: Vec<(&'a Name, &'a Expr)>)
    ensures
        pairs(r@) == scope_assignments(stmts_of(stmts@)),
{
    let all: Vec<&'a Stmt> = flatten_blocks(stmts);
    let ghost ss = stmts_of(all@);
    let mut order: Vec<(&'a Name, &'a Expr)> = Vec::new();
    assert(pairs(order@) =~= Seq::<(Seq<char>, Expr)>::empty());
    let mut i: usize = 0;
    while i < all.len()
        invariant
            i <= all@.len(),
            ss == stmts_of(all@),
            pairs(order@) == assigned(ss, i as nat),
        decreases all@.len() - i,
    {
        let s: &'a Stmt = all[i];
        assert(ss[i as int] == *s);
        match &s.kind {
            StmtKind::Assignment { name, value } => {
                enter_pair(&mut order, name, value);
            },
            _ => {},
        }
        i += 1;
    }
    order
}

/// One binding of a scope: an assignment, or a function defined in it.
#[derive(Debug)]
pub enum HoistItem<'a> {
    Assign(&'a Name, &'a Expr),
    Func { name: &'a Name, params: &'a Vec<Parameter>, body: &'a Expr, repr: &'a Name },
}

/// One binding of a scope, mathematically.
pub enum Item {
    Assign(Seq<char>, Expr),
    Func { name: Seq<char>, params: Seq<Parameter>, body: Expr, repr: Seq<char> },
}

impl<'a> View for HoistItem<'a> {
    type V = Item;

    open spec fn view(&self) -> Item {
        match *self {
            HoistItem::Assign(n, e) => Item::Assign(n@, *e),
            HoistItem::Func { name, params, body, repr } => Item::Func {
                name: name@,
                params: params@,
                body: *body,
                repr: repr@,
            },
        }
    }
}

/// Some bindings, mathematically.
pub open spec fn items(hs: Seq<HoistItem>) -> Seq<Item> {
    Seq::new(hs.len(), |i: int| hs[i]@)
}

/// The name that a binding binds.
pub open spec fn item_name(i: Item) -> Seq<char> {
    match i {
        Item::Assign(n, _) => n,
        Item::Func { name, .. } => name,
    }
}

/// The bindings after one more: a known name keeps its place.
pub open spec fn item_entered(order: Seq<Item>, item: Item, i: int) -> Seq<Item>
    decreases order.len() - i,
{
    if i >= order.len() {
        order.push(item)
    } else if item_name(order[i]) == item_name(item) {
        order.update(i, item)
    } else {
        item_entered(order, item, i + 1)
    }
}

/// The binding that a statement makes.
pub open spec fn item_of(s: Stmt) -> Option<Item> {
    match s.kind {
        StmtKind::Assignment { name, value } => Some(Item::Assign(name@, value)),
        StmtKind::FunctionDef { name, params, body, repr, .. } => Some(
            Item::Func { name: name@, params: params@, body, repr: repr@ },
        ),
        _ => None,
    }
}

/// The bindings among the first `n` of some statements in the order in which they take effect.
pub open spec fn hoisted(ss: Seq<Stmt>, n: nat) -> Seq<Item>
    decreases n,
{
    if n == 0 {
        Seq::empty()
    } else {
        match item_of(ss[n - 1]) {
            Some(item) => item_entered(hoisted(ss, (n - 1) as nat), item, 0),
            None => hoisted(ss, (n - 1) as nat),
        }
    }
}

/// The bindings of a scope in the order in which they take effect.
pub open spec fn scope_bindings(ss: Seq<Stmt>) -> Seq<Item> {
    hoisted(flat(ss), flat(ss).len())
}

impl<'a> HoistItem<'a> {
    /// The name that a binding binds.
    pub fn name(&self) -> (r: &'a Name)
        ensures
            r@ == item_name(self@),
    {
        match self {
            HoistItem::Assign(n, _) => n,
            HoistItem::Func { name, .. } => name,
        }
    }
}

fn enter_item<'a>(order: &mut Vec<HoistItem<'a>>, item: HoistItem<'a>)
    ensures
        items(final(order)@) == item_entered(items(old(order)@), item@, 0),
{
    let ghost before = items(order@);
    let mut i: usize = 0;
    while i < order.len()
        invariant
            i <= order@.len(),
            *order == *old(order),
            before == items(order@),
            item_entered(before, item@, 0) == item_entered(before, item@, i as int),
        decreases order@.len() - i,
    {
        assert(before[i as int] == order@[i as int]@);
        if same_name(order[i].name(), item.name()) {
            order.set(i, item);
            assert(items(order@) =~= before.update(i as int, item@));
            return;
        }
        i += 1;
    }
    order.push(item);
    assert(items(order@) =~= before.push(item@));
}

/// The bindings of a scope, functions defined in it among them, in the order in which they take
/// effect: each name once, where it first occurs, with what it is last bound to.
pub fn hoisted_bindings<'a>(stmts: &Vec<&'a Stmt>) -> (r: Vec<HoistItem<'a>>)
    ensures
        items(r@) == scope_bindings(stmts_of(stmts@)),
{
    let all: Vec<&'a Stmt> = flatten_blocks(stmts);
    let ghost ss = stmts_of(all@);
    let mut order: Vec<HoistItem<'a>> = Vec::new();
    assert(items(order@) =~= Seq::<Item>::empty());
    let mut i: usize = 0;
    while i < all.len()
        invariant
            i <= all@.len(),
            ss == stmts_of(all@),
            items(order@) == hoisted(ss, i as nat),
        decreases all@.len() - i,
    {
        let s: &'a Stmt = all[i];
        assert(ss[i as int] == *s);
        match &s.kind {
            StmtKind::Assignment { name, value } => {
                enter_item(&mut order, HoistItem::Assign(name, value));
            },
            StmtKind::FunctionDef { name, params, body, repr, .. } => {
                enter_item(&mut order, HoistItem::Func { name, params, body, repr });
            },
            _ => {},
        }
        i += 1;
    }
    order
}

/// The code of a binding that binds a function: its parameters, its body and its printed form.
pub struct Shape {
    pub name: Seq<char>,
    pub params: Seq<Parameter>,
    pub body: Expr,
    pub repr: Seq<char>,
}

/// The function that a binding binds: a function defined in the scope, or a function literal.
pub open spec fn shape(item: Item) -> Option<Shape> {
    match item {
        Item::Func { name, params, body, repr } => Some(Shape { name, params, body, repr }),
        Item::Assign(name, e) => match e.kind {
            ExprKind::FunctionLiteral { params, body, repr } => Some(
                Shape { name, params: params@, body: *body, repr: repr@ },
            ),
            _ => None,
        },
    }
}

/// The function that a binding binds.
pub fn fn_shape<'a>(item: &HoistItem<'a>) -> (r: Option<
    (&'a Name, &'a Vec<Parameter>, &'a Expr, &'a Name),
>)
    ensures
        match r {
            Some((name, params, body, repr)) => shape(item@) == Some(
                Shape { name: name@, params: params@, body: *body, repr: repr@ },
            ),
            None => shape(item@) is None,
        },
{
    match item {
        HoistItem::Func { name, params, body, repr } => Some((*name, *params, *body, *repr)),
        HoistItem::Assign(name, e) => {
            let expr: &'a Expr = e;
            match &expr.kind {
                ExprKind::FunctionLiteral { params, body, repr } => Some(
                    (*name, params, body, repr),
                ),
                _ => None,
            }
        },
    }
}

/// The names of a list are distinct.
pub open spec fn distinct(order: Seq<(Seq<char>, Expr)>) -> bool {
    forall|i: int, j: int|
        0 <= i < j < order.len() ==> (#[trigger] order[i]).0 != (#[trigger] order[j]).0
}

proof fn lemma_entered(order: Seq<(Seq<char>, Expr)>, name: Seq<char>, value: Expr, i: int)
    requires
        0 <= i <= order.len(),
        distinct(order),
        forall|k: int| 0 <= k < i ==> (#[trigger] order[k]).0 != name,
    ensures
        distinct(entered(order, name, value, i)),
        entered(order, name, value, i).len() >= order.len(),
        forall|k: int|
            0 <= k < order.len() ==> (#[trigger] entered(order, name, value, i)[k]).0 == order[k].0,
        exists|k: int|
            0 <= k < entered(order, name, value, i).len() && #[trigger] entered(
                order,
                name,
                value,
                i,
            )[k] == (name, value),
    decreases order.len() - i,
{
    let r = entered(order, name, value, i);
    if i >= order.len() {
        assert(r[order.len() as int] == (name, value));
    } else if order[i].0 == name {
        assert(r[i] == (name, value));
    } else {
        lemma_entered(order, name, value, i + 1);
    }
}

/// Each name of a scope is bound once, and what a later assignment assigns takes the place of
/// what an earlier one of the same name did, where that stood.
pub proof fn law_last_assignment_wins_in_the_first_place(ss: Seq<Stmt>, n: nat)
    requires
        n <= ss.len(),
    ensures
        distinct(assigned(ss, n)),
        n > 0 ==> forall|k: int|
            0 <= k < assigned(ss, (n - 1) as nat).len() ==> (#[trigger] assigned(ss, n)[k]).0
                == assigned(ss, (n - 1) as nat)[k].0,
        n > 0 && ss[n - 1].kind is Assignment ==> exists|k: int|
            0 <= k < assigned(ss, n).len() && (#[trigger] assigned(ss, n)[k]).0
                == ss[n - 1].kind->Assignment_name@ && assigned(ss, n)[k].1
                == ss[n - 1].kind->Assignment_value,
    decreases n,
{
    if n > 0 {
        law_last_assignment_wins_in_the_first_place(ss, (n - 1) as nat);
        match ss[n - 1].kind {
            StmtKind::Assignment { name, value } => {
                lemma_entered(assigned(ss, (n - 1) as nat), name@, value, 0);
            },
            _ => {},
        }
    }
}

pub(crate) proof fn lemma_flat_append(a: Seq<Stmt>, b: Seq<Stmt>)
    ensures
        flat(a + b) == flat(a) + flat(b),
    decreases a.len(),
{
    if a.len() == 0 {
        assert(a + b =~= b);
        assert(flat(a) + flat(b) =~= flat(b));
    } else {
        let rest = a.subrange(1, a.len() as int);
        lemma_flat_append(rest, b);
        assert((a + b).subrange(1, (a + b).len() as int) =~= rest + b);
        assert((a + b)[0] == a[0]);
        assert(flat(a + b) =~= flat(a) + flat(b));
    }
}

/// A bare block is no scope: what stands in it counts as if it stood beside it.
pub proof fn law_blocks_only_group(before: Seq<Stmt>, block: Stmt, after: Seq<Stmt>)
    requires
        block.kind is Block,
    ensures
        scope_assignments(before + seq![block] + after) == scope_assignments(
            before + block.kind->Block_0@ + after,
        ),
        scope_bindings(before + seq![block] + after) == scope_bindings(
            before + block.kind->Block_0@ + after,
        ),
{
    let inner = block.kind->Block_0@;
    lemma_flat_append(before + seq![block], after);
    lemma_flat_append(before, seq![block]);
    lemma_flat_append(before + inner, after);
    lemma_flat_append(before, inner);
    let one = seq![block];
    assert(one.subrange(1, 1) =~= Seq::<Stmt>::empty());
    assert(flat(one.subrange(1, one.len() as int)) == Seq::<Stmt>::empty());
    assert(flat_one(block) == flat(inner));
    assert(flat(one) =~= flat_one(one[0]) + flat(one.subrange(1, one.len() as int)));
    assert(flat(one) =~= flat(inner));
}

/// A binding that is entered is found under its name: in the place that the name had, where it had one, else last; and
/// every other binding stays where it was.
pub proof fn law_bindings_are_entered(order: Seq<Item>, item: Item, k: int)
    requires
        forall|i: int, j: int|
            0 <= i < j < order.len() ==> item_name(#[trigger] order[i]) != item_name(#[trigger] order[j]),
        0 <= k < order.len(),
    ensures
        ({
            let after = item_entered(order, item, 0);
            &&& item_name(order[k]) == item_name(item) ==> after.len() == order.len() && after[k] == item
            &&& item_name(order[k]) != item_name(item) ==> after[k] == order[k]
            &&& (forall|i: int| 0 <= i < order.len() ==> item_name(#[trigger] order[i]) != item_name(item)) ==> after
                == order.push(item)
        }),
{
    lemma_item_entered(order, item, 0, k);
}

proof fn lemma_item_entered(order: Seq<Item>, item: Item, i: int, k: int)
    requires
        forall|i: int, j: int|
            0 <= i < j < order.len() ==> item_name(#[trigger] order[i]) != item_name(#[trigger] order[j]),
        0 <= k < order.len(),
        0 <= i <= order.len(),
        forall|j: int| 0 <= j < i ==> item_name(#[trigger] order[j]) != item_name(item),
    ensures
        ({
            let after = item_entered(order, item, i);
            &&& item_name(order[k]) == item_name(item) ==> after.len() == order.len() && after[k] == item
            &&& item_name(order[k]) != item_name(item) ==> after[k] == order[k]
            &&& (forall|i: int| 0 <= i < order.len() ==> item_name(#[trigger] order[i]) != item_name(item)) ==> after
                == order.push(item)
        }),
    decreases order.len() - i,
{
    if i < order.len() {
        if item_name(order[i]) == item_name(item) {
            if k < i {
                assert(item_name(order[k]) != item_name(order[i]));
            } else if i < k {
                assert(item_name(order[i]) != item_name(order[k]));
            }
        } else {
            lemma_item_entered(order, item, i + 1, k);
        }
    }
}

/// What a statement binds: an assignment its name, to its expression; a definition of a function its name, to the function;
/// any other one nothing. A function that is bound is told by its parameters and its body, however it is written.
pub proof fn law_statements_bind(s: Stmt)
    ensures
        match s.kind {
            StmtKind::Assignment { name, value } => item_of(s) == Some(Item::Assign(name@, value)),
            StmtKind::FunctionDef { name, params, body, .. } => item_of(s) matches Some(item) && item_name(item) == name@
                && (shape(item) matches Some(f) && f.name == name@ && f.params == params@ && f.body == body),
            _ => item_of(s) is None,
        },
{
}

}

//! Scopes.
//!
//! All bindings of a run live in one store that only grows. A scope is a place in it: a chain of
//! bindings, innermost first, that ends in a frame, whose two links lead on to the enclosing
//! scope. Ordinary names follow the lexical link; names that start with `$` follow the dynamic
//! link, which for a call leads to the caller. Binding a name makes a new place and leaves every
//! place there was as it is, so a copy of a scope, or a function value that captured one, keeps
//! seeing what it saw.

use std::rc::Rc;

use vstd::prelude::*;

use crate::ast::{is_special, special, Name};
use crate::chars::{law_text_order, law_text_order_transitive, text_lt, text_rank, Rank};
use crate::value::{Val, Value};

verus! {

/// A scope: the place of its innermost node in the store.
#[derive(Debug, Clone, Copy, PartialEq, Eq, Structural)]
pub struct Scope {
    pub at: usize,
}

/// One node of the store.
#[derive(Debug)]
pub enum Node {
    /// The start of a frame, with the links to the enclosing scopes. `ctx` identifies the
    /// `$`-context that reaches it.
    Frame { lexical: Option<usize>, dynamic: Option<usize>, ctx: usize },
    /// A binding in the frame `frame`; `next` is what was there before.
    Var { name: Name, value: Value, next: usize, frame: usize, ctx: usize },
}

/// The store.
#[derive(Debug)]
pub struct Store {
    pub nodes: Vec<Node>,
}

/// A node, mathematically.
pub enum Cell {
    Frame { lexical: Option<usize>, dynamic: Option<usize>, ctx: usize },
    Var { name: Seq<char>, value: Val, next: usize, frame: usize, ctx: usize },
}

impl View for Node {
    type V = Cell;

    open spec fn view(&self) -> Cell {
        match *self {
            Node::Frame { lexical, dynamic, ctx } => Cell::Frame { lexical, dynamic, ctx },
            Node::Var { name, value, next, frame, ctx } => Cell::Var {
                name: name@,
                value: value@,
                next,
                frame,
                ctx,
            },
        }
    }
}

impl View for Store {
    type V = Seq<Cell>;

    open spec fn view(&self) -> Seq<Cell> {
        Seq::new(self.nodes@.len(), |i: int| self.nodes@[i]@)
    }
}

/// The node that a lookup of `name` goes on to from `c`.
pub open spec fn onward(c: Cell, name: Seq<char>) -> Option<usize> {
    match c {
        Cell::Var { next, .. } => Some(next),
        Cell::Frame { lexical, dynamic, .. } => if special(name) {
            dynamic
        } else {
            lexical
        },
    }
}

/// Every link leads to an earlier node, and every binding belongs to a frame.
pub open spec fn links_ok(st: Seq<Cell>, i: int) -> bool {
    match st[i] {
        Cell::Var { next, frame, ctx, .. } => {
            &&& next < i
            &&& frame < i
            &&& st[frame as int] is Frame
            &&& frame_at(st, next as int) == frame
            &&& ctx <= i
        },
        Cell::Frame { lexical, dynamic, ctx } => {
            &&& (lexical matches Some(p) ==> p < i)
            &&& (dynamic matches Some(p) ==> p < i)
            &&& ctx <= i
        },
    }
}

/// The frame that the node at `i` belongs to.
pub open spec fn frame_at(st: Seq<Cell>, i: int) -> usize {
    match st[i] {
        Cell::Var { frame, .. } => frame,
        Cell::Frame { .. } => i as usize,
    }
}

/// The identity of the `$`-context that reaches the node at `i`.
pub open spec fn ctx_at(st: Seq<Cell>, i: int) -> usize {
    match st[i] {
        Cell::Var { ctx, .. } => ctx,
        Cell::Frame { ctx, .. } => ctx,
    }
}

/// A well-formed store.
pub open spec fn store_ok(st: Seq<Cell>) -> bool {
    &&& st.len() <= usize::MAX
    &&& forall|i: int| 0 <= i < st.len() ==> #[trigger] links_ok(st, i)
}

/// A place of the store.
pub open spec fn scope_ok(st: Seq<Cell>, s: Scope) -> bool {
    s.at < st.len()
}

/// What a name means at a place: the first binding of it on its chain.
pub open spec fn find(st: Seq<Cell>, at: int, name: Seq<char>) -> Option<Val>
    decreases at,
{
    if !(0 <= at < st.len()) {
        None
    } else if st[at] is Var && st[at]->name == name {
        Some(st[at]->value)
    } else {
        match onward(st[at], name) {
            Some(p) => if p < at {
                find(st, p as int, name)
            } else {
                None
            },
            None => None,
        }
    }
}

/// What a name means in a scope, or nothing where it is unbound.
pub open spec fn meaning(st: Seq<Cell>, s: Scope, name: Seq<char>) -> Option<Val> {
    find(st, s.at as int, name)
}

/// The place that binding a name makes.
pub open spec fn bound_cell(st: Seq<Cell>, s: Scope, name: Seq<char>, value: Val) -> Cell {
    Cell::Var {
        name,
        value,
        next: s.at,
        frame: frame_at(st, s.at as int),
        ctx: if special(name) {
            st.len() as usize
        } else {
            ctx_at(st, s.at as int)
        },
    }
}

/// The store after binding a name.
pub open spec fn bound(st: Seq<Cell>, s: Scope, name: Seq<char>, value: Val) -> Seq<Cell> {
    st.push(bound_cell(st, s, name, value))
}

/// The scope that the last node of a store makes.
pub open spec fn newest(st: Seq<Cell>) -> Scope {
    Scope { at: (st.len() - 1) as usize }
}

/// The frame that a child of `s` starts with.
pub open spec fn child_cell(st: Seq<Cell>, s: Scope) -> Cell {
    Cell::Frame { lexical: Some(s.at), dynamic: Some(s.at), ctx: ctx_at(st, s.at as int) }
}

/// The frame of a call: lexically below `base`, dynamically below `caller`.
pub open spec fn call_cell(st: Seq<Cell>, base: Scope, caller: Scope) -> Cell {
    Cell::Frame { lexical: Some(base.at), dynamic: Some(caller.at), ctx: ctx_at(st, caller.at as int) }
}

/// A longer store agrees with a shorter one on the shorter one's places.
pub open spec fn grows(old_st: Seq<Cell>, new_st: Seq<Cell>) -> bool {
    &&& old_st.len() <= new_st.len()
    &&& forall|i: int| 0 <= i < old_st.len() ==> #[trigger] new_st[i] == old_st[i]
}

/// Growing a store changes no meaning: a scope sees in the longer store what it saw in the
/// shorter one.
pub proof fn law_growing_keeps_meanings(a: Seq<Cell>, b: Seq<Cell>, at: int, name: Seq<char>)
    requires
        grows(a, b),
        at < a.len(),
    ensures
        find(b, at, name) == find(a, at, name),
    decreases at,
{
    if 0 <= at < a.len() {
        assert(b[at] == a[at]);
        if !(a[at] is Var && a[at]->name == name) {
            match onward(a[at], name) {
                Some(p) => {
                    if p < at {
                        law_growing_keeps_meanings(a, b, p as int, name);
                    }
                },
                None => {},
            }
        }
    }
}

/// A binding shadows what its name meant before and touches no other name; the scope that was
/// bound in keeps its own meanings.
pub proof fn law_bind_shadows(st: Seq<Cell>, s: Scope, name: Seq<char>, value: Val, other: Seq<char>)
    requires
        store_ok(st),
        scope_ok(st, s),
    ensures
        meaning(bound(st, s, name, value), newest(bound(st, s, name, value)), name) == Some(value),
        other != name ==> meaning(
            bound(st, s, name, value),
            newest(bound(st, s, name, value)),
            other,
        ) == meaning(st, s, other),
        meaning(bound(st, s, name, value), s, other) == meaning(st, s, other),
{
    let b = bound(st, s, name, value);
    assert(grows(st, b));
    law_growing_keeps_meanings(st, b, s.at as int, other);
}

/// A child sees what its parent sees.
pub proof fn law_child_falls_through(st: Seq<Cell>, s: Scope, name: Seq<char>)
    requires
        store_ok(st),
        scope_ok(st, s),
        st.len() < usize::MAX,
    ensures
        ({
            let b = st.push(child_cell(st, s));
            meaning(b, newest(b), name) == meaning(st, s, name)
        }),
{
    let b = st.push(child_cell(st, s));
    assert(grows(st, b));
    law_growing_keeps_meanings(st, b, s.at as int, name);
}

/// In a fresh call frame an ordinary name means what it means where the callee was defined, and a
/// `$`-name what it means to the caller.
pub proof fn law_call_frame_splits(st: Seq<Cell>, base: Scope, caller: Scope, name: Seq<char>)
    requires
        store_ok(st),
        scope_ok(st, base),
        scope_ok(st, caller),
        st.len() < usize::MAX,
    ensures
        ({
            let b = st.push(call_cell(st, base, caller));
            meaning(b, newest(b), name) == if special(name) {
                meaning(st, caller, name)
            } else {
                meaning(st, base, name)
            }
        }),
{
    let b = st.push(call_cell(st, base, caller));
    assert(grows(st, b));
    law_growing_keeps_meanings(st, b, base.at as int, name);
    law_growing_keeps_meanings(st, b, caller.at as int, name);
}

/// A node that keeps the links in order keeps the store well-formed.
pub proof fn lemma_push_ok(st: Seq<Cell>, c: Cell)
    requires
        store_ok(st),
        st.len() < usize::MAX,
        links_ok(st.push(c), st.len() as int),
    ensures
        store_ok(st.push(c)),
        grows(st, st.push(c)),
{
    let b = st.push(c);
    assert forall|i: int| 0 <= i < b.len() implies #[trigger] links_ok(b, i) by {
        if i < st.len() {
            assert(links_ok(st, i));
        }
    }
}

impl Store {
    /// An empty store.
    pub fn new() -> (r: Store)
        ensures
            r@ == Seq::<Cell>::empty(),
            store_ok(r@),
    {
        let r = Store { nodes: Vec::new() };
        assert(r@ =~= Seq::<Cell>::empty());
        r
    }

    fn add(&mut self, n: Node) -> (r: usize)
        ensures
            final(self)@ == old(self)@.push(n@),
            final(self)@.len() <= usize::MAX,
            r == old(self)@.len(),
    {
        let at: usize = self.nodes.len();
        self.nodes.push(n);
        let _len: usize = self.nodes.len();
        assert(self@ =~= old(self)@.push(n@));
        at
    }

    fn frame_of(&self, at: usize) -> (r: usize)
        requires
            at < self@.len(),
        ensures
            r == frame_at(self@, at as int),
    {
        match &self.nodes[at] {
            Node::Var { frame, .. } => *frame,
            Node::Frame { .. } => at,
        }
    }

    fn ctx_of(&self, at: usize) -> (r: usize)
        requires
            at < self@.len(),
        ensures
            r == ctx_at(self@, at as int),
    {
        match &self.nodes[at] {
            Node::Var { ctx, .. } => *ctx,
            Node::Frame { ctx, .. } => *ctx,
        }
    }
}

impl Scope {
    /// What a name means here, or nothing where it is unbound.
    pub fn lookup_opt(&self, store: &Store, name: &str) -> (r: Option<Value>)
        requires
            store_ok(store@),
            scope_ok(store@, *self),
        ensures
            match r {
                Some(v) => meaning(store@, *self, name@) == Some(v@),
                None => meaning(store@, *self, name@) is None,
            },
    {
        let dynamic_name: bool = is_special(name);
        let wanted: String = name.to_owned();
        let mut at: usize = self.at;
        loop
            invariant
                store_ok(store@),
                at < store@.len(),
                wanted@ == name@,
                dynamic_name == special(name@),
                find(store@, at as int, name@) == meaning(store@, *self, name@),
            decreases at,
        {
            assert(links_ok(store@, at as int));
            let next: Option<usize> = match &store.nodes[at] {
                Node::Var { name: n, value, next, .. } => {
                    if **n == wanted {
                        return Some(value.clone());
                    }
                    Some(*next)
                },
                Node::Frame { lexical, dynamic, .. } => {
                    if dynamic_name {
                        *dynamic
                    } else {
                        *lexical
                    }
                },
            };
            match next {
                Some(p) => {
                    at = p;
                },
                None => {
                    return None;
                },
            }
        }
    }

    /// What a name means here; `undef` where it is unbound.
    pub fn lookup(&self, store: &Store, name: &str) -> (r: Value)
        requires
            store_ok(store@),
            scope_ok(store@, *self),
        ensures
            r@ == match meaning(store@, *self, name@) {
                Some(v) => v,
                None => Val::Undef,
            },
    {
        match self.lookup_opt(store, name) {
            Some(v) => v,
            None => Value::Undef,
        }
    }

    /// Binds a name here: this scope becomes the new place.
    pub fn bind(&mut self, store: &mut Store, name: Name, value: Value)
        requires
            store_ok(old(store)@),
            scope_ok(old(store)@, *old(self)),
        ensures
            final(store)@ == bound(old(store)@, *old(self), name@, value@),
            *final(self) == newest(final(store)@),
            store_ok(final(store)@),
            scope_ok(final(store)@, *final(self)),
            grows(old(store)@, final(store)@),
    {
        let frame: usize = store.frame_of(self.at);
        let ctx: usize = if is_special(name.as_str()) {
            store.nodes.len()
        } else {
            store.ctx_of(self.at)
        };
        let ghost before = store@;
        assert(links_ok(before, self.at as int));
        let at: usize = store.add(Node::Var { name, value, next: self.at, frame, ctx });
        proof {
            lemma_push_ok(before, bound_cell(before, *self, name@, value@));
        }
        self.at = at;
    }

    /// A fresh frame below this scope.
    pub fn child(&self, store: &mut Store) -> (r: Scope)
        requires
            store_ok(old(store)@),
            scope_ok(old(store)@, *self),
        ensures
            final(store)@ == old(store)@.push(child_cell(old(store)@, *self)),
            r == newest(final(store)@),
            store_ok(final(store)@),
            scope_ok(final(store)@, r),
            grows(old(store)@, final(store)@),
    {
        let ghost before = store@;
        assert(links_ok(before, self.at as int));
        let ctx: usize = store.ctx_of(self.at);
        let at: usize = store.add(
            Node::Frame { lexical: Some(self.at), dynamic: Some(self.at), ctx },
        );
        proof {
            lemma_push_ok(before, child_cell(before, *self));
        }
        Scope { at }
    }

    /// The frame of a call: lexically below `base`, dynamically below `caller`.
    pub fn call_frame(store: &mut Store, base: &Scope, caller: &Scope) -> (r: Scope)
        requires
            store_ok(old(store)@),
            scope_ok(old(store)@, *base),
            scope_ok(old(store)@, *caller),
        ensures
            final(store)@ == old(store)@.push(call_cell(old(store)@, *base, *caller)),
            r == newest(final(store)@),
            store_ok(final(store)@),
            scope_ok(final(store)@, r),
            grows(old(store)@, final(store)@),
    {
        let ghost before = store@;
        assert(links_ok(before, caller.at as int));
        let ctx: usize = store.ctx_of(caller.at);
        let at: usize = store.add(
            Node::Frame { lexical: Some(base.at), dynamic: Some(caller.at), ctx },
        );
        proof {
            lemma_push_ok(before, call_cell(before, *base, *caller));
        }
        Scope { at }
    }

    /// The frame this scope is in: the same for every place that binding made in it.
    pub fn boundary_id(&self, store: &Store) -> (r: usize)
        requires
            scope_ok(store@, *self),
        ensures
            r == frame_at(store@, self.at as int),
    {
        store.frame_of(self.at)
    }

    /// The identity of this place.
    pub fn frame_id(&self) -> (r: usize)
        ensures
            r == self.at,
    {
        self.at
    }

    /// Whether two scopes are the same place.
    pub fn same_frame(&self, other: &Scope) -> (r: bool)
        ensures
            r == (*self == *other),
    {
        self.at == other.at
    }

    /// The identity of the `$`-context that reaches this place: a `$`-binding makes a new one,
    /// everything else inherits it.
    pub fn dyn_ctx(&self, store: &Store) -> (r: usize)
        requires
            scope_ok(store@, *self),
        ensures
            r == ctx_at(store@, self.at as int),
    {
        store.ctx_of(self.at)
    }

    /// Binds one of the names that a root scope starts with.
    fn seed(&mut self, store: &mut Store, name: &str, value: Value)
        requires
            store_ok(old(store)@),
            scope_ok(old(store)@, *old(self)),
            *old(self) == newest(old(store)@),
        ensures
            final(store)@ == seeded(old(store)@, name@, value@),
            *final(self) == newest(final(store)@),
            store_ok(final(store)@),
            scope_ok(final(store)@, *final(self)),
    {
        self.bind(store, Rc::new(name.to_owned()), value);
    }

    /// A root scope: a fresh frame without enclosing scopes that knows the constant `PI`, the
    /// fragment settings and the viewport settings.
    pub fn new(store: &mut Store) -> (r: Scope)
        requires
            store_ok(old(store)@),
        ensures
            final(store)@ == root_store(old(store)@),
            r == newest(final(store)@),
            r.at >= old(store)@.len(),
            store_ok(final(store)@),
            scope_ok(final(store)@, r),
            grows(old(store)@, final(store)@),
            is_global(final(store)@, frame_at(final(store)@, r.at as int) as int),
            forall|n: Seq<char>| #[trigger]
                meaning(final(store)@, r, n) == root_meaning(n),
    {
        let ghost before = store@;
        let len: usize = store.nodes.len();
        let at: usize = store.add(Node::Frame { lexical: None, dynamic: None, ctx: len });
        proof {
            lemma_push_ok(before, Cell::Frame { lexical: None, dynamic: None, ctx: len });
        }
        let mut s = Scope { at };
        s.seed(store, "PI", Value::Num(0x4009_21fb_5444_2d18));
        s.seed(store, "$fs", Value::Num(0x4000_0000_0000_0000));
        s.seed(store, "$fa", Value::Num(0x4028_0000_0000_0000));
        s.seed(store, "$fn", Value::Num(0));
        let mut vpr: Vec<u64> = Vec::new();
        vpr.push(0x404b_8000_0000_0000);
        vpr.push(0);
        vpr.push(0x4039_0000_0000_0000);
        assert(vpr@ =~= seq![0x404b_8000_0000_0000u64, 0, 0x4039_0000_0000_0000]);
        s.seed(store, "$vpr", Value::num_list(vpr));
        let mut vpt: Vec<u64> = Vec::new();
        vpt.push(0);
        vpt.push(0);
        vpt.push(0);
        assert(vpt@ =~= seq![0u64, 0, 0]);
        s.seed(store, "$vpt", Value::num_list(vpt));
        s.seed(store, "$vpd", Value::Num(0x4061_8000_0000_0000));
        s.seed(store, "$vpf", Value::Num(0x4036_8000_0000_0000));
        proof {
            law_root_scopes_are_alike(before, None);
        }
        s
    }

    /// A root scope that also knows whether this is a preview.
    pub fn new_with_preview(store: &mut Store, preview: bool) -> (r: Scope)
        requires
            store_ok(old(store)@),
        ensures
            final(store)@ == fresh_store(old(store)@, Some(preview)),
            r == newest(final(store)@),
            r.at >= old(store)@.len(),
            store_ok(final(store)@),
            scope_ok(final(store)@, r),
            grows(old(store)@, final(store)@),
            is_global(final(store)@, frame_at(final(store)@, r.at as int) as int),
            forall|n: Seq<char>| #[trigger]
                meaning(final(store)@, r, n) == fresh_meaning(Some(preview), n),
    {
        let ghost before = store@;
        let mut s = Scope::new(store);
        s.seed(store, "$preview", Value::Bool(preview));
        proof {
            law_root_scopes_are_alike(before, Some(preview));
        }
        s
    }

    /// The number a name stands for; zero where it stands for something else.
    fn num(&self, store: &Store, name: &str) -> (r: u64)
        requires
            store_ok(store@),
            scope_ok(store@, *self),
        ensures
            r == number_of(meaning(store@, *self, name@)),
    {
        match self.lookup(store, name) {
            Value::Num(n) => n,
            _ => 0,
        }
    }

    /// The fragment settings `$fn`, `$fa` and `$fs`.
    pub fn fn_fa_fs(&self, store: &Store) -> (r: (u64, u64, u64))
        requires
            store_ok(store@),
            scope_ok(store@, *self),
        ensures
            r.0 == number_of(meaning(store@, *self, "$fn"@)),
            r.1 == number_of(meaning(store@, *self, "$fa"@)),
            r.2 == number_of(meaning(store@, *self, "$fs"@)),
    {
        (self.num(store, "$fn"), self.num(store, "$fa"), self.num(store, "$fs"))
    }

    /// The function value that a name stands for here, where its binding is not a top-level one.
    pub fn lookup_local_function(&self, store: &Store, name: &str) -> (r: Option<Value>)
        requires
            store_ok(store@),
            scope_ok(store@, *self),
        ensures
            match r {
                Some(v) => local_function(store@, *self, name@) == Some(v@),
                None => local_function(store@, *self, name@) is None,
            },
    {
        let dynamic_name: bool = is_special(name);
        let wanted: String = name.to_owned();
        let mut at: usize = self.at;
        loop
            invariant
                store_ok(store@),
                at < store@.len(),
                wanted@ == name@,
                dynamic_name == special(name@),
                binding(store@, at as int, name@) == binding(store@, self.at as int, name@),
            decreases at,
        {
            assert(links_ok(store@, at as int));
            let next: Option<usize> = match &store.nodes[at] {
                Node::Var { name: n, value, next, frame, .. } => {
                    if **n == wanted {
                        assert(binding(store@, self.at as int, name@) == Some(at as int));
                        let local: bool = match &store.nodes[*frame] {
                            Node::Frame { lexical: Some(_), .. } => true,
                            _ => false,
                        };
                        return match value {
                            Value::Function { .. } => {
                                if local {
                                    Some(value.clone())
                                } else {
                                    None
                                }
                            },
                            _ => None,
                        };
                    }
                    Some(*next)
                },
                Node::Frame { lexical, dynamic, .. } => {
                    if dynamic_name {
                        *dynamic
                    } else {
                        *lexical
                    }
                },
            };
            match next {
                Some(p) => {
                    at = p;
                },
                None => {
                    return None;
                },
            }
        }
    }

    /// The `$`-names that reach this scope, in the order of their names, with what they mean.
    pub fn specials(&self, store: &Store) -> (r: Vec<(Name, Value)>)
        requires
            store_ok(store@),
            scope_ok(store@, *self),
        ensures
            forall|i: int, j: int|
                0 <= i < j < r@.len() ==> text_lt((#[trigger] r@[i]).0@, (#[trigger] r@[j]).0@),
            forall|i: int|
                0 <= i < r@.len() ==> special((#[trigger] r@[i]).0@) && meaning(
                    store@,
                    *self,
                    r@[i].0@,
                ) == Some(r@[i].1@),
            forall|n: Seq<char>|
                special(n) && (#[trigger] meaning(store@, *self, n)) is Some ==> listed(r@, n),
    {
        let mut out: Vec<(Name, Value)> = Vec::new();
        let mut at: usize = self.at;
        loop
            invariant
                store_ok(store@),
                at < store@.len(),
                forall|i: int, j: int|
                    0 <= i < j < out@.len() ==> text_lt(
                        (#[trigger] out@[i]).0@,
                        (#[trigger] out@[j]).0@,
                    ),
                forall|i: int|
                    0 <= i < out@.len() ==> special((#[trigger] out@[i]).0@) && meaning(
                        store@,
                        *self,
                        out@[i].0@,
                    ) == Some(out@[i].1@),
                forall|n: Seq<char>|
                    special(n) && !listed(out@, n) ==> #[trigger] meaning(store@, *self, n) == find(
                        store@,
                        at as int,
                        n,
                    ),
            decreases at,
        {
            assert(links_ok(store@, at as int));
            let ghost before = out@;
            let next: Option<usize> = match &store.nodes[at] {
                Node::Var { name, value, next, .. } => {
                    if is_special(name.as_str()) {
                        let (found, pos) = position(&out, name.as_str());
                        if !found {
                            assert(!listed(out@, name@));
                            out.insert(pos, (name.clone(), value.clone()));
                            assert(out@ == before.insert(pos as int, (*name, *value)));
                        }
                        proof {
                            lemma_listed_insert(before, out@, found, pos as int, *name, *value);
                        }
                    }
                    Some(*next)
                },
                Node::Frame { dynamic, .. } => *dynamic,
            };
            assert forall|n: Seq<char>| special(n) && !listed(out@, n) implies #[trigger] meaning(
                store@,
                *self,
                n,
            ) == (match next {
                Some(p) => find(store@, p as int, n),
                None => None,
            }) by {
                assert(!listed(before, n));
                assert(meaning(store@, *self, n) == find(store@, at as int, n));
            }
            match next {
                Some(p) => {
                    at = p;
                },
                None => {
                    return out;
                },
            }
        }
    }
}

/// Where a name stands in a list that is in the order of names, or where it would.
fn position(out: &Vec<(Name, Value)>, name: &str) -> (r: (bool, usize))
    requires
        forall|i: int, j: int|
            0 <= i < j < out@.len() ==> text_lt((#[trigger] out@[i]).0@, (#[trigger] out@[j]).0@),
    ensures
        r.0 == listed(out@, name@),
        r.1 <= out@.len(),
        !r.0 ==> forall|i: int| 0 <= i < r.1 ==> text_lt((#[trigger] out@[i]).0@, name@),
        !r.0 ==> forall|i: int| r.1 <= i < out@.len() ==> text_lt(name@, (#[trigger] out@[i]).0@),
{
    let mut i: usize = 0;
    while i < out.len()
        invariant
            i <= out@.len(),
            forall|i: int, j: int|
                0 <= i < j < out@.len() ==> text_lt(
                    (#[trigger] out@[i]).0@,
                    (#[trigger] out@[j]).0@,
                ),
            forall|k: int| 0 <= k < i ==> text_lt((#[trigger] out@[k]).0@, name@),
        decreases out@.len() - i,
    {
        match text_rank(out[i].0.as_str(), name) {
            Rank::Equal => {
                return (true, i);
            },
            Rank::Greater => {
                proof {
                    law_text_order(out@[i as int].0@, name@);
                    assert forall|k: int| i <= k < out@.len() implies text_lt(
                        name@,
                        (#[trigger] out@[k]).0@,
                    ) by {
                        if k > i {
                            law_text_order_transitive(name@, out@[i as int].0@, out@[k].0@);
                        }
                    }
                    assert forall|k: int| 0 <= k < out@.len() implies (
                    #[trigger] out@[k]).0@ != name@ by {
                        law_text_order(out@[k].0@, name@);
                        law_text_order(name@, out@[k].0@);
                    }
                }
                return (false, i);
            },
            Rank::Less => {},
        }
        i += 1;
    }
    proof {
        assert forall|k: int| 0 <= k < out@.len() implies (#[trigger] out@[k]).0@ != name@ by {
            law_text_order(out@[k].0@, name@);
        }
    }
    (false, out.len())
}

/// Whether a name is in a list of bindings.
pub open spec fn listed(s: Seq<(Name, Value)>, n: Seq<char>) -> bool {
    exists|i: int| 0 <= i < s.len() && (#[trigger] s[i]).0@ == n
}

proof fn lemma_listed_insert(
    before: Seq<(Name, Value)>,
    after: Seq<(Name, Value)>,
    found: bool,
    pos: int,
    name: Name,
    value: Value,
)
    requires
        0 <= pos <= before.len(),
        after == if found {
            before
        } else {
            before.insert(pos, (name, value))
        },
        found == listed(before, name@),
    ensures
        forall|n: Seq<char>| #[trigger]
            listed(after, n) == (listed(before, n) || n == name@),
{
    assert forall|n: Seq<char>| #[trigger] listed(after, n) == (listed(before, n) || n == name@) by {
        if !found {
            if listed(before, n) {
                let i = choose|i: int| 0 <= i < before.len() && (#[trigger] before[i]).0@ == n;
                let k = if i < pos { i } else { i + 1 };
                assert(after[k].0@ == n);
            }
            if n == name@ {
                assert(after[pos].0@ == n);
            }
            if listed(after, n) {
                let k = choose|k: int| 0 <= k < after.len() && (#[trigger] after[k]).0@ == n;
                if k < pos {
                    assert(before[k].0@ == n);
                } else if k > pos {
                    assert(before[k - 1].0@ == n);
                }
            }
        }
    }
}

/// The number behind a meaning; zero where it is no number.
pub open spec fn number_of(m: Option<Val>) -> u64 {
    match m {
        Some(Val::Num(n)) => n,
        _ => 0,
    }
}

/// What the names of a root scope mean.
pub open spec fn root_meaning(n: Seq<char>) -> Option<Val> {
    if n == "$vpf"@ {
        Some(Val::Num(0x4036_8000_0000_0000))
    } else if n == "$vpd"@ {
        Some(Val::Num(0x4061_8000_0000_0000))
    } else if n == "$vpt"@ {
        Some(Val::NumList(seq![0u64, 0, 0]))
    } else if n == "$vpr"@ {
        Some(Val::NumList(seq![0x404b_8000_0000_0000u64, 0, 0x4039_0000_0000_0000]))
    } else if n == "$fn"@ {
        Some(Val::Num(0))
    } else if n == "$fa"@ {
        Some(Val::Num(0x4028_0000_0000_0000))
    } else if n == "$fs"@ {
        Some(Val::Num(0x4000_0000_0000_0000))
    } else if n == "PI"@ {
        Some(Val::Num(0x4009_21fb_5444_2d18))
    } else {
        None
    }
}

/// What the names of a root scope mean, where it may know whether this is a preview.
pub open spec fn fresh_meaning(preview: Option<bool>, n: Seq<char>) -> Option<Val> {
    if n == "$preview"@ && preview is Some {
        Some(Val::Bool(preview->Some_0))
    } else {
        root_meaning(n)
    }
}

/// The store after binding a name in its newest scope.
pub open spec fn seeded(st: Seq<Cell>, name: Seq<char>, value: Val) -> Seq<Cell> {
    bound(st, newest(st), name, value)
}

/// The store with one root scope more, the newest one.
pub open spec fn root_store(st: Seq<Cell>) -> Seq<Cell> {
    let a = st.push(Cell::Frame { lexical: None, dynamic: None, ctx: st.len() as usize });
    let b = seeded(a, "PI"@, Val::Num(0x4009_21fb_5444_2d18));
    let c = seeded(b, "$fs"@, Val::Num(0x4000_0000_0000_0000));
    let d = seeded(c, "$fa"@, Val::Num(0x4028_0000_0000_0000));
    let e = seeded(d, "$fn"@, Val::Num(0));
    let f = seeded(
        e,
        "$vpr"@,
        Val::NumList(seq![0x404b_8000_0000_0000u64, 0, 0x4039_0000_0000_0000]),
    );
    let g = seeded(f, "$vpt"@, Val::NumList(seq![0u64, 0, 0]));
    let h = seeded(g, "$vpd"@, Val::Num(0x4061_8000_0000_0000));
    seeded(h, "$vpf"@, Val::Num(0x4036_8000_0000_0000))
}

/// The store with one root scope more, which may know whether this is a preview.
pub open spec fn fresh_store(st: Seq<Cell>, preview: Option<bool>) -> Seq<Cell> {
    match preview {
        Some(p) => seeded(root_store(st), "$preview"@, Val::Bool(p)),
        None => root_store(st),
    }
}

/// A store whose newest scope is in a root frame that began at `from`, and in which names mean what
/// `m` says.
spec fn rooting(st: Seq<Cell>, from: Seq<Cell>, m: spec_fn(Seq<char>) -> Option<Val>) -> bool {
    &&& store_ok(st)
    &&& st.len() > from.len()
    &&& grows(from, st)
    &&& frame_at(st, st.len() - 1) == from.len()
    &&& is_global(st, from.len() as int)
    &&& forall|n: Seq<char>| #[trigger] meaning(st, newest(st), n) == m(n)
}

proof fn lemma_seeded(
    st: Seq<Cell>,
    from: Seq<Cell>,
    m: spec_fn(Seq<char>) -> Option<Val>,
    name: Seq<char>,
    v: Val,
) -> (more: spec_fn(Seq<char>) -> Option<Val>)
    requires
        rooting(st, from, m),
        st.len() < usize::MAX,
    ensures
        rooting(seeded(st, name, v), from, more),
        more == |n: Seq<char>|
            if n == name {
                Some(v)
            } else {
                m(n)
            },
{
    let more = |n: Seq<char>|
        if n == name {
            Some(v)
        } else {
            m(n)
        };
    let s = newest(st);
    let b = seeded(st, name, v);
    assert(links_ok(st, s.at as int));
    lemma_push_ok(st, bound_cell(st, s, name, v));
    assert forall|n: Seq<char>| #[trigger] meaning(b, newest(b), n) == more(n) by {
        law_bind_shadows(st, s, name, v, n);
    }
    assert forall|i: int| 0 <= i < from.len() implies #[trigger] b[i] == from[i] by {
        assert(st[i] == from[i]);
    }
    more
}

/// A fresh root scope is a new place in a top-level frame, and in every store its names mean the
/// same.
pub proof fn law_root_scopes_are_alike(st: Seq<Cell>, preview: Option<bool>)
    requires
        store_ok(st),
        fresh_store(st, preview).len() <= usize::MAX,
    ensures
        ({
            let t = fresh_store(st, preview);
            &&& store_ok(t)
            &&& grows(st, t)
            &&& scope_ok(t, newest(t))
            &&& newest(t).at >= st.len()
            &&& is_global(t, frame_at(t, newest(t).at as int) as int)
            &&& forall|n: Seq<char>| #[trigger]
                meaning(t, newest(t), n) == fresh_meaning(preview, n)
        }),
{
    reveal_strlit("PI");
    reveal_strlit("$fs");
    reveal_strlit("$fa");
    reveal_strlit("$fn");
    reveal_strlit("$vpr");
    reveal_strlit("$vpt");
    reveal_strlit("$vpd");
    reveal_strlit("$vpf");
    reveal_strlit("$preview");
    let cell = Cell::Frame { lexical: None, dynamic: None, ctx: st.len() as usize };
    let a = st.push(cell);
    lemma_push_ok(st, cell);
    let m0 = |n: Seq<char>| None::<Val>;
    assert(rooting(a, st, m0));
    let b = seeded(a, "PI"@, Val::Num(0x4009_21fb_5444_2d18));
    let m1 = lemma_seeded(a, st, m0, "PI"@, Val::Num(0x4009_21fb_5444_2d18));
    let c = seeded(b, "$fs"@, Val::Num(0x4000_0000_0000_0000));
    let m2 = lemma_seeded(b, st, m1, "$fs"@, Val::Num(0x4000_0000_0000_0000));
    let d = seeded(c, "$fa"@, Val::Num(0x4028_0000_0000_0000));
    let m3 = lemma_seeded(c, st, m2, "$fa"@, Val::Num(0x4028_0000_0000_0000));
    let e = seeded(d, "$fn"@, Val::Num(0));
    let m4 = lemma_seeded(d, st, m3, "$fn"@, Val::Num(0));
    let vpr = Val::NumList(seq![0x404b_8000_0000_0000u64, 0, 0x4039_0000_0000_0000]);
    let f = seeded(e, "$vpr"@, vpr);
    let m5 = lemma_seeded(e, st, m4, "$vpr"@, vpr);
    let vpt = Val::NumList(seq![0u64, 0, 0]);
    let g = seeded(f, "$vpt"@, vpt);
    let m6 = lemma_seeded(f, st, m5, "$vpt"@, vpt);
    let h = seeded(g, "$vpd"@, Val::Num(0x4061_8000_0000_0000));
    let m7 = lemma_seeded(g, st, m6, "$vpd"@, Val::Num(0x4061_8000_0000_0000));
    let k = seeded(h, "$vpf"@, Val::Num(0x4036_8000_0000_0000));
    let m8 = lemma_seeded(h, st, m7, "$vpf"@, Val::Num(0x4036_8000_0000_0000));
    assert(k == root_store(st));
    assert forall|n: Seq<char>| #[trigger] m8(n) == root_meaning(n) by {}
    match preview {
        Some(p) => {
            let m9 = lemma_seeded(k, st, m8, "$preview"@, Val::Bool(p));
            assert forall|n: Seq<char>| #[trigger] m9(n) == fresh_meaning(preview, n) by {}
        },
        None => {},
    }
}

/// Whether the frame at `i` is a top-level one.
pub open spec fn is_global(st: Seq<Cell>, i: int) -> bool {
    st[i] matches Cell::Frame { lexical: None, .. }
}

/// The place of the binding that a name stands for.
pub open spec fn binding(st: Seq<Cell>, at: int, name: Seq<char>) -> Option<int>
    decreases at,
{
    if !(0 <= at < st.len()) {
        None
    } else if st[at] is Var && st[at]->name == name {
        Some(at)
    } else {
        match onward(st[at], name) {
            Some(p) => if p < at {
                binding(st, p as int, name)
            } else {
                None
            },
            None => None,
        }
    }
}

/// The function value that a name stands for, where its binding is not a top-level one.
pub open spec fn local_function(st: Seq<Cell>, s: Scope, name: Seq<char>) -> Option<Val> {
    match binding(st, s.at as int, name) {
        Some(i) => match st[i] {
            Cell::Var { value, frame, .. } => if value is Function && !is_global(st, frame as int) {
                Some(value)
            } else {
                None
            },
            _ => None,
        },
        None => None,
    }
}

/// What a file knows from the start: the circle's number; that circles have fragments of twelve degrees, of a length of
/// two and no fixed number of them; how the view is turned, where it looks, from how far and how wide; and whether this
/// is a preview where that is said. No other name means anything.
pub proof fn law_root_settings(preview: Option<bool>, n: Seq<char>)
    ensures
        fresh_meaning(preview, "PI"@) == Some(Val::Num(0x4009_21fb_5444_2d18)),
        fresh_meaning(preview, "$fn"@) == Some(Val::Num(0)),
        fresh_meaning(preview, "$fa"@) == Some(Val::Num(0x4028_0000_0000_0000)),
        fresh_meaning(preview, "$fs"@) == Some(Val::Num(0x4000_0000_0000_0000)),
        fresh_meaning(preview, "$vpr"@) == Some(
            Val::NumList(seq![0x404b_8000_0000_0000u64, 0, 0x4039_0000_0000_0000]),
        ),
        fresh_meaning(preview, "$vpt"@) == Some(Val::NumList(seq![0u64, 0, 0])),
        fresh_meaning(preview, "$vpd"@) == Some(Val::Num(0x4061_8000_0000_0000)),
        fresh_meaning(preview, "$vpf"@) == Some(Val::Num(0x4036_8000_0000_0000)),
        preview matches Some(p) ==> fresh_meaning(preview, "$preview"@) == Some(Val::Bool(p)),
        preview is None ==> fresh_meaning(preview, "$preview"@) is None,
        n != "PI"@ && n != "$fn"@ && n != "$fa"@ && n != "$fs"@ && n != "$vpr"@ && n != "$vpt"@ && n != "$vpd"@ && n
            != "$vpf"@ && n != "$preview"@ ==> fresh_meaning(preview, n) is None,
{
    reveal_strlit("PI");
    reveal_strlit("$fs");
    reveal_strlit("$fa");
    reveal_strlit("$fn");
    reveal_strlit("$vpr");
    reveal_strlit("$vpt");
    reveal_strlit("$vpd");
    reveal_strlit("$vpf");
    reveal_strlit("$preview");
    assert("PI"@.len() == 2 && "$fs"@.len() == 3 && "$fa"@.len() == 3 && "$fn"@.len() == 3);
    assert("$vpr"@.len() == 4 && "$vpt"@.len() == 4 && "$vpd"@.len() == 4 && "$vpf"@.len() == 4);
    assert("$preview"@.len() == 8);
    assert("$fs"@[2] == 's' && "$fa"@[2] == 'a' && "$fn"@[2] == 'n');
    assert("$vpr"@[3] == 'r' && "$vpt"@[3] == 't' && "$vpd"@[3] == 'd' && "$vpf"@[3] == 'f');
}

/// The number that a meaning is, zero where it is none.
pub proof fn law_numbers_of_meanings(v: Option<Val>)
    ensures
        v matches Some(Val::Num(n)) ==> number_of(v) == n,
        !(v matches Some(Val::Num(n))) ==> number_of(v) == 0,
{
}

}

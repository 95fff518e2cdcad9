//! The `$`-names that module bodies read, body by body. What a nested body reads, the body around it
//! reads too.

use vstd::prelude::*;

use crate::ast::{same_name, Name};
use crate::chars::{law_text_order, law_text_order_transitive, text_lt, text_rank, Rank};
use crate::object::{has, member_value, names_distinct, place_of};
use crate::scope::{meaning, scope_ok, store_ok, Cell, Scope, Store};
use crate::value::{Val, Value};

verus! {

/// The `$`-names that a body read, in the order of the names, with what each meant.
#[derive(Debug)]
pub struct Reads {
    pub entries: Vec<(Name, Value)>,
}

/// Some reads, mathematically.
pub open spec fn pairs(es: Seq<(Name, Value)>) -> Seq<(Seq<char>, Val)> {
    Seq::new(es.len(), |i: int| (es[i].0@, es[i].1@))
}

impl View for Reads {
    type V = Seq<(Seq<char>, Val)>;

    open spec fn view(&self) -> Seq<(Seq<char>, Val)> {
        pairs(self.entries@)
    }
}

/// The first place from the `i`-th on before which a name stands.
pub open spec fn place_before(rs: Seq<(Seq<char>, Val)>, name: Seq<char>, i: int) -> int
    decreases rs.len() - i,
{
    if i >= rs.len() || text_lt(name, rs[i].0) {
        i
    } else {
        place_before(rs, name, i + 1)
    }
}

proof fn lemma_place_within(rs: Seq<(Seq<char>, Val)>, name: Seq<char>, i: int)
    requires
        0 <= i <= rs.len(),
    ensures
        i <= place_before(rs, name, i) <= rs.len(),
    decreases rs.len() - i,
{
    if i < rs.len() && !text_lt(name, rs[i].0) {
        lemma_place_within(rs, name, i + 1);
    }
}

/// Reads after one more: the first read of a name is the one that counts, and a new name stands in
/// the order of the names.
pub open spec fn with_read(rs: Seq<(Seq<char>, Val)>, name: Seq<char>, value: Val) -> Seq<
    (Seq<char>, Val),
> {
    if has(rs, name) {
        rs
    } else {
        rs.insert(place_before(rs, name, 0), (name, value))
    }
}

/// Reads after the first `n` of some others.
pub open spec fn with_reads(
    rs: Seq<(Seq<char>, Val)>,
    more: Seq<(Seq<char>, Val)>,
    n: nat,
) -> Seq<(Seq<char>, Val)>
    decreases n,
{
    if n == 0 {
        rs
    } else {
        with_read(with_reads(rs, more, (n - 1) as nat), more[n - 1].0, more[n - 1].1)
    }
}

/// What a name that means nothing is read as.
pub open spec fn read_as(m: Option<Val>) -> Val {
    match m {
        Some(v) => v,
        None => Val::Undef,
    }
}

/// Whether every name still means what it was read as.
pub open spec fn agreeing(rs: Seq<(Seq<char>, Val)>, st: Seq<Cell>, s: Scope) -> bool {
    forall|i: int|
        0 <= i < rs.len() ==> read_as(meaning(st, s, (#[trigger] rs[i]).0)) == rs[i].1
}

impl Reads {
    /// No reads.
    pub fn new() -> (r: Reads)
        ensures
            r@ == Seq::<(Seq<char>, Val)>::empty(),
    {
        let r = Reads { entries: Vec::new() };
        assert(r@ =~= Seq::<(Seq<char>, Val)>::empty());
        r
    }

    /// The number of names.
    pub fn len(&self) -> (r: usize)
        ensures
            r == self@.len(),
    {
        self.entries.len()
    }

    /// Whether nothing was read.
    pub fn is_empty(&self) -> (r: bool)
        ensures
            r == (self@.len() == 0),
    {
        self.entries.len() == 0
    }

    /// What a name was read as.
    pub fn get(&self, name: &Name) -> (r: Option<&Value>)
        requires
            names_distinct(self@),
        ensures
            match r {
                Some(v) => member_value(self@, name@) == Some(v@),
                None => member_value(self@, name@) is None,
            },
    {
        let mut i: usize = 0;
        while i < self.entries.len()
            invariant
                i <= self.entries@.len(),
                names_distinct(self@),
                forall|k: int| 0 <= k < i ==> (#[trigger] self@[k]).0 != name@,
            decreases self.entries@.len() - i,
        {
            if same_name(&self.entries[i].0, name) {
                assert(self@[i as int].0 == name@);
                assert(self@[place_of(self@, name@)].0 == name@);
                return Some(&self.entries[i].1);
            }
            assert(self@[i as int].0 != name@);
            i += 1;
        }
        None
    }

    /// Adds a read.
    pub fn insert(&mut self, name: &Name, value: Value)
        ensures
            final(self)@ == with_read(old(self)@, name@, value@),
            names_distinct(old(self)@) ==> names_distinct(final(self)@),
    {
        let ghost was = self@;
        let mut i: usize = 0;
        while i < self.entries.len()
            invariant
                i <= self.entries@.len(),
                self@ == was,
                was == old(self)@,
                forall|k: int| 0 <= k < i ==> (#[trigger] was[k]).0 != name@,
            decreases self.entries@.len() - i,
        {
            assert(was[i as int].0 == self.entries@[i as int].0@);
            if same_name(&self.entries[i].0, name) {
                return ;
            }
            i += 1;
        }
        let mut p: usize = 0;
        while p < self.entries.len()
            invariant
                p <= self.entries@.len(),
                self@ == was,
                place_before(was, name@, p as int) == place_before(was, name@, 0),
            ensures
                self@ == was,
                p <= self.entries@.len(),
                p == place_before(was, name@, 0),
            decreases self.entries@.len() - p,
        {
            assert(was[p as int].0 == self.entries@[p as int].0@);
            let before: bool = match text_rank(name.as_str(), self.entries[p].0.as_str()) {
                Rank::Less => true,
                _ => false,
            };
            if before {
                break;
            }
            p += 1;
        }
        self.entries.insert(p, (name.clone(), value));
        assert(self@ =~= was.insert(p as int, (name@, value@)));
        assert(names_distinct(was) ==> names_distinct(self@)) by {
            if names_distinct(was) {
                assert forall|i: int, j: int| 0 <= i < j < self@.len() implies (
                #[trigger] self@[i]).0 != (#[trigger] self@[j]).0 by {
                    let a = if i < p {
                        i
                    } else {
                        i - 1
                    };
                    let b = if j < p {
                        j
                    } else {
                        j - 1
                    };
                    if i != p {
                        assert(self@[i] == was[a]);
                    }
                    if j != p {
                        assert(self@[j] == was[b]);
                    }
                }
            }
        }
    }

    /// Adds all reads of another set.
    fn extend(&mut self, more: &Reads)
        ensures
            final(self)@ == with_reads(old(self)@, more@, more@.len()),
            names_distinct(old(self)@) ==> names_distinct(final(self)@),
    {
        let ghost was = self@;
        let mut i: usize = 0;
        while i < more.entries.len()
            invariant
                i <= more.entries@.len(),
                was == old(self)@,
                self@ == with_reads(was, more@, i as nat),
                names_distinct(was) ==> names_distinct(self@),
            decreases more.entries@.len() - i,
        {
            assert(more@[i as int] == (more.entries@[i as int].0@, more.entries@[i as int].1@));
            self.insert(&more.entries[i].0, more.entries[i].1.clone());
            i += 1;
        }
    }

    /// Whether every name still means, bit for bit, what it was read as. A name that means nothing
    /// is read as `undef`. Asking does not count as reading.
    pub fn agrees(&self, store: &Store, scope: &Scope) -> (r: bool)
        requires
            store_ok(store@),
            scope_ok(store@, *scope),
        ensures
            r == agreeing(self@, store@, *scope),
    {
        let mut i: usize = 0;
        while i < self.entries.len()
            invariant
                i <= self.entries@.len(),
                store_ok(store@),
                scope_ok(store@, *scope),
                forall|k: int|
                    0 <= k < i ==> read_as(meaning(store@, *scope, (#[trigger] self@[k]).0))
                        == self@[k].1,
            decreases self.entries@.len() - i,
        {
            assert(self@[i as int] == (self.entries@[i as int].0@, self.entries@[i as int].1@));
            let now: Value = match scope.lookup_opt(store, &self.entries[i].0) {
                Some(v) => v,
                None => Value::Undef,
            };
            if !now.same_bits(&self.entries[i].1) {
                return false;
            }
            i += 1;
        }
        true
    }
}

/// The reads of the bodies that are running, the innermost last.
#[derive(Debug)]
pub struct ReadStack {
    pub stack: Vec<Reads>,
}

/// The reads of several bodies, mathematically.
pub open spec fn layers(s: Seq<Reads>) -> Seq<Seq<(Seq<char>, Val)>> {
    Seq::new(s.len(), |i: int| s[i]@)
}

impl View for ReadStack {
    type V = Seq<Seq<(Seq<char>, Val)>>;

    open spec fn view(&self) -> Seq<Seq<(Seq<char>, Val)>> {
        layers(self.stack@)
    }
}

/// The reads of the running bodies after some more reads of the innermost one. Where no body runs,
/// nothing is kept.
pub open spec fn on_top(
    st: Seq<Seq<(Seq<char>, Val)>>,
    more: Seq<(Seq<char>, Val)>,
) -> Seq<Seq<(Seq<char>, Val)>> {
    if st.len() == 0 {
        st
    } else {
        st.update(st.len() - 1, with_reads(st.last(), more, more.len()))
    }
}

impl ReadStack {
    /// No name is read twice in one body.
    pub open spec fn ok(&self) -> bool {
        forall|i: int| 0 <= i < self@.len() ==> names_distinct(#[trigger] self@[i])
    }

    /// No body runs.
    pub fn new() -> (r: ReadStack)
        ensures
            r@ == Seq::<Seq<(Seq<char>, Val)>>::empty(),
            r.ok(),
    {
        let r = ReadStack { stack: Vec::new() };
        assert(r@ =~= Seq::<Seq<(Seq<char>, Val)>>::empty());
        r
    }

    /// Notes that the innermost body read a name.
    pub fn record(&mut self, name: &Name, value: Option<&Value>)
        requires
            old(self).ok(),
        ensures
            final(self)@ == on_top(
                old(self)@,
                seq![
                    (
                        name@,
                        read_as(
                            match value {
                                Some(v) => Some(v@),
                                None => None,
                            },
                        ),
                    ),
                ],
            ),
            final(self).ok(),
    {
        let value: Value = match value {
            Some(v) => v.clone(),
            None => Value::Undef,
        };
        let mut one = Reads { entries: Vec::new() };
        one.entries.push((name.clone(), value));
        assert(one@ =~= seq![(name@, value@)]);
        self.propagate(&one);
    }

    /// A body begins.
    pub fn push(&mut self)
        requires
            old(self).ok(),
        ensures
            final(self)@ == old(self)@.push(Seq::empty()),
            final(self).ok(),
    {
        self.stack.push(Reads::new());
        assert(self@ =~= old(self)@.push(Seq::empty()));
    }

    /// A body ends: its reads, which the body around it has now read too. Nothing where no body runs.
    pub fn pop(&mut self) -> (r: Reads)
        requires
            old(self).ok(),
        ensures
            old(self)@.len() == 0 ==> r@ == Seq::<(Seq<char>, Val)>::empty() && final(self)@ == old(
                self,
            )@,
            old(self)@.len() > 0 ==> r@ == old(self)@.last() && final(self)@ == on_top(
                old(self)@.drop_last(),
                old(self)@.last(),
            ),
            final(self).ok(),
            names_distinct(r@),
    {
        match self.stack.pop() {
            Some(reads) => {
                assert(self@ =~= old(self)@.drop_last());
                assert(old(self)@.last() == reads@);
                assert(self.ok()) by {
                    assert forall|i: int| 0 <= i < self@.len() implies names_distinct(
                        #[trigger] self@[i],
                    ) by {
                        assert(self@[i] == old(self)@[i]);
                    }
                }
                self.propagate(&reads);
                reads
            },
            None => Reads::new(),
        }
    }

    /// The innermost body has read what some other reads say.
    pub fn propagate(&mut self, reads: &Reads)
        requires
            old(self).ok(),
        ensures
            final(self)@ == on_top(old(self)@, reads@),
            final(self).ok(),
    {
        let ghost was = self@;
        let n: usize = self.stack.len();
        if n > 0 {
            let ghost raw = self.stack@;
            assert(was[n - 1] == raw[n - 1]@);
            assert(names_distinct(was[n - 1]));
            self.stack[n - 1].extend(reads);
            assert(self@ =~= on_top(was, reads@));
            assert forall|i: int| 0 <= i < self@.len() implies names_distinct(#[trigger] self@[i]) by {
                if i < n - 1 {
                    assert(self@[i] == was[i]);
                }
            }
        }
    }
}

proof fn lemma_read_stays(rs: Seq<(Seq<char>, Val)>, name: Seq<char>, value: Val, i: int)
    requires
        0 <= i < rs.len(),
    ensures
        with_read(rs, name, value).contains(rs[i]),
        has(with_read(rs, name, value), rs[i].0),
        has(with_read(rs, name, value), name),
{
    let r = with_read(rs, name, value);
    if has(rs, name) {
        assert(r[i] == rs[i]);
    } else {
        lemma_place_within(rs, name, 0);
        let p = place_before(rs, name, 0);
        assert(r[p].0 == name);
        if i < p {
            assert(r[i] == rs[i]);
        } else {
            assert(r[i + 1] == rs[i]);
        }
    }
}

proof fn lemma_with_reads_has(
    rs: Seq<(Seq<char>, Val)>,
    more: Seq<(Seq<char>, Val)>,
    n: nat,
    name: Seq<char>,
)
    requires
        n <= more.len(),
        has(rs, name) || exists|i: int| 0 <= i < n && (#[trigger] more[i]).0 == name,
    ensures
        has(with_reads(rs, more, n), name),
    decreases n,
{
    if n > 0 {
        let was = with_reads(rs, more, (n - 1) as nat);
        let last = more[n - 1];
        if has(rs, name) || exists|i: int| 0 <= i < n - 1 && (#[trigger] more[i]).0 == name {
            lemma_with_reads_has(rs, more, (n - 1) as nat, name);
            let k = choose|k: int| 0 <= k < was.len() && (#[trigger] was[k]).0 == name;
            lemma_read_stays(was, last.0, last.1, k);
        } else if !(has(was, name)) {
            lemma_place_within(was, name, 0);
            assert(with_reads(rs, more, n)[place_before(was, name, 0)].0 == name);
        }
    }
}

/// What a nested body reads, the body around it has read once the nested one ends.
pub proof fn law_nested_reads_reach_outward(
    outer: Seq<(Seq<char>, Val)>,
    inner: Seq<(Seq<char>, Val)>,
    name: Seq<char>,
)
    requires
        has(inner, name),
    ensures
        has(with_reads(outer, inner, inner.len()), name),
{
    lemma_with_reads_has(outer, inner, inner.len(), name);
}

/// The first read of a name wins: what a body has read of a name, no later read changes.
pub proof fn law_first_read_stays(
    rs: Seq<(Seq<char>, Val)>,
    more: Seq<(Seq<char>, Val)>,
    n: nat,
    i: int,
)
    requires
        n <= more.len(),
        0 <= i < rs.len(),
    ensures
        with_reads(rs, more, n).contains(rs[i]),
    decreases n,
{
    if n > 0 {
        law_first_read_stays(rs, more, (n - 1) as nat, i);
        let was = with_reads(rs, more, (n - 1) as nat);
        let k = choose|k: int| 0 <= k < was.len() && was[k] == rs[i];
        lemma_read_stays(was, more[n - 1].0, more[n - 1].1, k);
    }
}

/// Reads in the strict order of their names.
pub open spec fn by_names(rs: Seq<(Seq<char>, Val)>) -> bool {
    forall|i: int, j: int|
        0 <= i < j < rs.len() ==> text_lt((#[trigger] rs[i]).0, (#[trigger] rs[j]).0)
}

proof fn lemma_place_sorted(rs: Seq<(Seq<char>, Val)>, name: Seq<char>, i: int)
    requires
        0 <= i <= rs.len(),
        !(has(rs, name)),
        forall|k: int| 0 <= k < i ==> text_lt((#[trigger] rs[k]).0, name),
    ensures
        ({
            let p = place_before(rs, name, i);
            &&& i <= p <= rs.len()
            &&& forall|k: int| 0 <= k < p ==> text_lt((#[trigger] rs[k]).0, name)
            &&& p < rs.len() ==> text_lt(name, rs[p].0)
        }),
    decreases rs.len() - i,
{
    if i < rs.len() && !text_lt(name, rs[i].0) {
        law_text_order(name, rs[i].0);
        assert(rs[i].0 != name);
        lemma_place_sorted(rs, name, i + 1);
    }
}

/// Reads stand in the order of their names, each name once, whatever is read.
pub proof fn law_reads_stand_by_name(
    rs: Seq<(Seq<char>, Val)>,
    more: Seq<(Seq<char>, Val)>,
    n: nat,
)
    requires
        n <= more.len(),
        by_names(rs),
    ensures
        by_names(with_reads(rs, more, n)),
    decreases n,
{
    if n > 0 {
        law_reads_stand_by_name(rs, more, (n - 1) as nat);
        let was = with_reads(rs, more, (n - 1) as nat);
        let name = more[n - 1].0;
        if !(has(was, name)) {
            lemma_place_sorted(was, name, 0);
            let p = place_before(was, name, 0);
            let r = with_reads(rs, more, n);
            assert forall|i: int, j: int| 0 <= i < j < r.len() implies text_lt(
                (#[trigger] r[i]).0,
                (#[trigger] r[j]).0,
            ) by {
                let a = if i < p {
                    i
                } else {
                    i - 1
                };
                let b = if j < p {
                    j
                } else {
                    j - 1
                };
                if i != p {
                    assert(r[i] == was[a]);
                }
                if j != p {
                    assert(r[j] == was[b]);
                }
                if i == p && b != p {
                    law_text_order_transitive(name, was[p].0, was[b].0);
                }
            }
        }
    }
}

} // verus!

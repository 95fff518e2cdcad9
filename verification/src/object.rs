//! Objects: insertion-ordered maps from names to values.
//!
//! Members are listed in the order in which their names were first set. Lookup goes through a
//! second list, the places of the members in the order of their names, by bisection.

use vstd::prelude::*;

use crate::ast::Name;
use crate::chars::{law_text_order, law_text_order_transitive, text_lt, text_rank, Rank};
use crate::num::{unit, unit_ok, FloatOp};
use crate::redundancy::{hash_value, lemma_member_words_outnumber, member_elems, member_words, push_text};
use crate::value::{val_eq, val_of, Val, Value};

verus! {

/// An insertion-ordered map: `entries` in the order the names were first set, `index` the places
/// of the entries in the order of their names.
#[derive(Debug)]
pub struct ObjectMap {
    pub(crate) entries: Vec<(Name, Value)>,
    pub(crate) index: Vec<usize>,
}

/// The members of an object, in insertion order.
pub closed spec fn members_of(o: ObjectMap) -> Seq<(Seq<char>, Val)>
    decreases o,
{
    Seq::new(
        o.entries@.len(),
        |i: int|
            if 0 <= i < o.entries@.len() {
                (o.entries@[i].0@, val_of(o.entries@[i].1))
            } else {
                (Seq::empty(), Val::Undef)
            },
    )
}

/// Whether `name` is a member.
pub open spec fn has(ms: Seq<(Seq<char>, Val)>, name: Seq<char>) -> bool {
    exists|i: int| 0 <= i < ms.len() && (#[trigger] ms[i]).0 == name
}

/// The place of the member `name`.
pub open spec fn place_of(ms: Seq<(Seq<char>, Val)>, name: Seq<char>) -> int {
    choose|i: int| 0 <= i < ms.len() && (#[trigger] ms[i]).0 == name
}

/// The value of the member `name`.
pub open spec fn member_value(ms: Seq<(Seq<char>, Val)>, name: Seq<char>) -> Option<Val> {
    if has(ms, name) {
        Some(ms[place_of(ms, name)].1)
    } else {
        None
    }
}

/// No name occurs twice.
pub open spec fn names_distinct(ms: Seq<(Seq<char>, Val)>) -> bool {
    forall|i: int, j: int|
        0 <= i < j < ms.len() ==> (#[trigger] ms[i]).0 != (#[trigger] ms[j]).0
}

/// The members after setting one: a known name keeps its place, a new one goes last.
pub open spec fn with_member(ms: Seq<(Seq<char>, Val)>, name: Seq<char>, value: Val) -> Seq<
    (Seq<char>, Val),
> {
    if has(ms, name) {
        ms.update(place_of(ms, name), (name, value))
    } else {
        ms.push((name, value))
    }
}

/// The members after removing one.
pub open spec fn without_member(ms: Seq<(Seq<char>, Val)>, name: Seq<char>) -> Seq<
    (Seq<char>, Val),
> {
    if has(ms, name) {
        ms.remove(place_of(ms, name))
    } else {
        ms
    }
}

spec fn index_ok(names: Seq<Seq<char>>, index: Seq<usize>) -> bool {
    &&& index.len() == names.len()
    &&& forall|i: int| 0 <= i < index.len() ==> #[trigger] index[i] < names.len()
    &&& forall|i: int, j: int|
        0 <= i < j < index.len() ==> text_lt(
            names[#[trigger] index[i] as int],
            names[#[trigger] index[j] as int],
        )
    &&& forall|k: int| 0 <= k < names.len() ==> #[trigger] listed(index, k)
}

spec fn listed(index: Seq<usize>, k: int) -> bool {
    exists|i: int| 0 <= i < index.len() && #[trigger] index[i] == k
}

impl ObjectMap {
    spec fn names(self) -> Seq<Seq<char>> {
        Seq::new(self.entries@.len(), |i: int| self.entries@[i].0@)
    }

    #[verifier::type_invariant]
    spec fn inv(self) -> bool {
        index_ok(self.names(), self.index@)
    }

    proof fn lemma_distinct(self)
        requires
            self.inv(),
        ensures
            names_distinct(members_of(self)),
    {
        let ms = members_of(self);
        let names = self.names();
        assert forall|i: int, j: int| 0 <= i < j < ms.len() implies (#[trigger] ms[i]).0 != (
        #[trigger] ms[j]).0 by {
            assert(ms[i].0 == names[i]);
            assert(ms[j].0 == names[j]);
            assert(listed(self.index@, i) && listed(self.index@, j));
            let p = choose|p: int| 0 <= p < self.index@.len() && #[trigger] self.index@[p] == i;
            let q = choose|q: int| 0 <= q < self.index@.len() && #[trigger] self.index@[q] == j;
            law_text_order(names[i], names[j]);
            law_text_order(names[j], names[i]);
            if p < q {
                assert(text_lt(names[self.index@[p] as int], names[self.index@[q] as int]));
            } else {
                assert(text_lt(names[self.index@[q] as int], names[self.index@[p] as int]));
            }
        }
    }

    /// Where `name` stands in the index, or where it would.
    fn search(&self, name: &str) -> (r: (bool, usize))
        ensures
            r.0 == has(members_of(*self), name@),
            r.0 ==> r.1 < self.index@.len() && members_of(*self)[self.index@[r.1 as int] as int].0
                == name@,
            !r.0 ==> r.1 <= self.index@.len() && (forall|i: int|
                0 <= i < r.1 ==> text_lt(self.names()[#[trigger] self.index@[i] as int], name@))
                && (forall|i: int|
                r.1 <= i < self.index@.len() ==> text_lt(
                    name@,
                    self.names()[#[trigger] self.index@[i] as int],
                )),
    {
        proof {
            use_type_invariant(self);
        }
        let ghost names = self.names();
        let ghost ms = members_of(*self);
        assert(forall|i: int| 0 <= i < ms.len() ==> (#[trigger] ms[i]).0 == names[i]);
        let mut lo: usize = 0;
        let mut hi: usize = self.index.len();
        while lo < hi
            invariant
                self.inv(),
                names == self.names(),
                ms == members_of(*self),
                ms.len() == names.len(),
                forall|i: int| 0 <= i < ms.len() ==> (#[trigger] ms[i]).0 == names[i],
                lo <= hi <= self.index@.len(),
                forall|i: int|
                    0 <= i < lo ==> text_lt(names[#[trigger] self.index@[i] as int], name@),
                forall|i: int|
                    hi <= i < self.index@.len() ==> text_lt(
                        name@,
                        names[#[trigger] self.index@[i] as int],
                    ),
            decreases hi - lo,
        {
            let mid: usize = lo + (hi - lo) / 2;
            let k: usize = self.index[mid];
            assert(names[k as int] == self.entries@[k as int].0@);
            match text_rank(self.entries[k].0.as_str(), name) {
                Rank::Equal => {
                    assert(ms[k as int].0 == name@);
                    return (true, mid);
                },
                Rank::Less => {
                    proof {
                        assert forall|i: int| 0 <= i < mid + 1 implies text_lt(
                            names[#[trigger] self.index@[i] as int],
                            name@,
                        ) by {
                            if i < mid {
                                law_text_order_transitive(
                                    names[self.index@[i] as int],
                                    names[k as int],
                                    name@,
                                );
                            }
                        }
                    }
                    lo = mid + 1;
                },
                Rank::Greater => {
                    proof {
                        law_text_order(names[k as int], name@);
                        assert forall|i: int| mid <= i < self.index@.len() implies text_lt(
                            name@,
                            names[#[trigger] self.index@[i] as int],
                        ) by {
                            if mid < i {
                                law_text_order_transitive(
                                    name@,
                                    names[k as int],
                                    names[self.index@[i] as int],
                                );
                            }
                        }
                    }
                    hi = mid;
                },
            }
        }
        proof {
            if has(ms, name@) {
                let k = place_of(ms, name@);
                assert(listed(self.index@, k));
                let i = choose|i: int|
                    0 <= i < self.index@.len() && #[trigger] self.index@[i] == k;
                law_text_order(names[k], name@);
                assert(names[self.index@[i] as int] == name@);
            }
        }
        (false, lo)
    }

    /// An object without members.
    pub fn new() -> (r: ObjectMap)
        ensures
            members_of(r) == Seq::<(Seq<char>, Val)>::empty(),
    {
        let r = ObjectMap { entries: Vec::new(), index: Vec::new() };
        assert(members_of(r) =~= Seq::<(Seq<char>, Val)>::empty());
        r
    }

    /// The names of an object's members are distinct.
    pub fn names_are_distinct(&self)
        ensures
            names_distinct(members_of(*self)),
    {
        proof {
            use_type_invariant(self);
            self.lemma_distinct();
        }
    }

    /// Member lookup.
    pub fn get(&self, name: &str) -> (r: Option<&Value>)
        ensures
            match r {
                Some(v) => member_value(members_of(*self), name@) == Some(v@),
                None => member_value(members_of(*self), name@) is None,
            },
    {
        proof {
            use_type_invariant(self);
            self.lemma_distinct();
        }
        let (found, at) = self.search(name);
        if found {
            let k: usize = self.index[at];
            proof {
                let ms = members_of(*self);
                let p = place_of(ms, name@);
                assert(ms[k as int].0 == name@);
                assert(p == k);
            }
            Some(&self.entries[k].1)
        } else {
            None
        }
    }

    /// Whether a name is a member.
    pub fn has_key(&self, name: &str) -> (r: bool)
        ensures
            r == has(members_of(*self), name@),
    {
        self.search(name).0
    }

    /// The number of members.
    pub fn len(&self) -> (r: usize)
        ensures
            r == members_of(*self).len(),
    {
        self.entries.len()
    }

    /// Whether there is no member.
    pub fn is_empty(&self) -> (r: bool)
        ensures
            r == (members_of(*self).len() == 0),
    {
        self.entries.len() == 0
    }

    /// The `i`-th member in insertion order.
    pub fn iter(&self, i: usize) -> (r: (&Name, &Value))
        requires
            i < members_of(*self).len(),
        ensures
            (r.0@, r.1@) == members_of(*self)[i as int],
    {
        (&self.entries[i].0, &self.entries[i].1)
    }

    /// The names of the members in insertion order.
    pub fn keys(&self) -> (r: Vec<Name>)
        ensures
            r@.len() == members_of(*self).len(),
            forall|i: int| 0 <= i < r@.len() ==> (#[trigger] r@[i])@ == members_of(*self)[i].0,
    {
        let mut out: Vec<Name> = Vec::new();
        let mut i: usize = 0;
        while i < self.entries.len()
            invariant
                i <= self.entries@.len(),
                out@.len() == i,
                members_of(*self).len() == self.entries@.len(),
                forall|k: int|
                    0 <= k < i ==> (#[trigger] out@[k])@ == members_of(*self)[k].0,
            decreases self.entries@.len() - i,
        {
            out.push(self.entries[i].0.clone());
            i += 1;
        }
        out
    }

    /// Sets a member: a new name goes last, a known one keeps its place.
    pub fn set(&mut self, name: Name, value: Value)
        ensures
            members_of(*final(self)) == with_member(members_of(*old(self)), name@, value@),
    {
        proof {
            use_type_invariant(&*self);
            self.lemma_distinct();
        }
        let (found, at) = self.search(name.as_str());
        let ghost before = *self;
        let ghost ms = members_of(before);
        let mut taken = ObjectMap::new();
        std::mem::swap(self, &mut taken);
        proof {
            use_type_invariant(&taken);
        }
        let mut entries: Vec<(Name, Value)> = taken.entries;
        let mut index: Vec<usize> = taken.index;
        let ghost names = before.names();
        if found {
            let k: usize = index[at];
            let kept: Name = entries[k].0.clone();
            entries.set(k, (kept, value));
            proof {
                assert(ms[k as int].0 == name@);
                assert(place_of(ms, name@) == k);
                assert(Seq::new(entries@.len(), |i: int| entries@[i].0@) =~= names);
            }
            *self = ObjectMap { entries, index };
            assert(members_of(*self) =~= ms.update(k as int, (name@, value@)));
        } else {
            let n: usize = entries.len();
            index.insert(at, n);
            entries.push((name, value));
            proof {
                let new_names = Seq::new(entries@.len(), |i: int| entries@[i].0@);
                assert(new_names =~= names.push(name@));
                let old_index = before.index@;
                assert(index@ == old_index.insert(at as int, n));
                assert forall|i: int, j: int| 0 <= i < j < index@.len() implies text_lt(
                    new_names[#[trigger] index@[i] as int],
                    new_names[#[trigger] index@[j] as int],
                ) by {
                    let oi = if i < at { i } else { i - 1 };
                    let oj = if j < at { j } else { j - 1 };
                    if i != at {
                        assert(index@[i] == old_index[oi]);
                    }
                    if j != at {
                        assert(index@[j] == old_index[oj]);
                    }
                }
                assert forall|k: int| 0 <= k < new_names.len() implies #[trigger] listed(
                    index@,
                    k,
                ) by {
                    if k == n {
                        assert(index@[at as int] == n);
                    } else {
                        assert(listed(old_index, k));
                        let i = choose|i: int|
                            0 <= i < old_index.len() && #[trigger] old_index[i] == k;
                        let ni = if i < at { i } else { i + 1 };
                        assert(index@[ni] == k);
                    }
                }
                assert forall|i: int| 0 <= i < index@.len() implies #[trigger] index@[i]
                    < new_names.len() by {
                    if i < at {
                        assert(index@[i] == old_index[i]);
                    } else if i > at {
                        assert(index@[i] == old_index[i - 1]);
                    }
                }
            }
            *self = ObjectMap { entries, index };
            assert(members_of(*self) =~= ms.push((name@, value@)));
        }
    }

    /// Removes a member where there is one; the others keep their order.
    pub fn remove(&mut self, name: &str)
        ensures
            members_of(*final(self)) == without_member(members_of(*old(self)), name@),
    {
        proof {
            use_type_invariant(&*self);
            self.lemma_distinct();
        }
        let (found, at) = self.search(name);
        if !found {
            return ;
        }
        let ghost before = *self;
        let ghost ms = members_of(before);
        let ghost names = before.names();
        let mut taken = ObjectMap::new();
        std::mem::swap(self, &mut taken);
        proof {
            use_type_invariant(&taken);
        }
        let mut entries: Vec<(Name, Value)> = taken.entries;
        let index: Vec<usize> = taken.index;
        let k: usize = index[at];
        proof {
            assert(ms[k as int].0 == name@);
            assert(place_of(ms, name@) == k);
        }
        entries.remove(k);
        let mut fresh: Vec<usize> = Vec::new();
        let mut i: usize = 0;
        while i < index.len()
            invariant
                i <= index@.len(),
                at < index@.len(),
                index_ok(names, index@),
                k == index@[at as int],
                fresh@.len() == if i <= at { i as int } else { i - 1 },
                forall|j: int|
                    0 <= j < i && j != at ==> fresh@[if j < at { j } else { j - 1 }] == if (
                    #[trigger] index@[j]) > k {
                        (index@[j] - 1) as usize
                    } else {
                        index@[j]
                    },
            decreases index@.len() - i,
        {
            let slot: usize = index[i];
            if i != at {
                if slot > k {
                    fresh.push(slot - 1);
                } else {
                    fresh.push(slot);
                }
            }
            i += 1;
        }
        proof {
            let new_names = Seq::new(entries@.len(), |i: int| entries@[i].0@);
            assert(new_names =~= names.remove(k as int));
            assert forall|j: int| 0 <= j < fresh@.len() implies ({
                let oj = if j < at { j } else { j + 1 };
                &&& index@[oj] != k
                &&& fresh@[j] == if index@[oj] > k { index@[oj] - 1 } else { index@[oj] as int }
                &&& #[trigger] fresh@[j] < new_names.len()
                &&& new_names[fresh@[j] as int] == names[index@[oj] as int]
            }) by {
                let oj = if j < at { j } else { j + 1 };
                assert(index@[oj] < names.len());
                if index@[oj] == k {
                    law_text_order(names[k as int], names[k as int]);
                    if oj < at {
                        assert(text_lt(names[index@[oj] as int], names[index@[at as int] as int]));
                    } else {
                        assert(text_lt(names[index@[at as int] as int], names[index@[oj] as int]));
                    }
                }
            }
            assert forall|i: int, j: int| 0 <= i < j < fresh@.len() implies text_lt(
                new_names[#[trigger] fresh@[i] as int],
                new_names[#[trigger] fresh@[j] as int],
            ) by {
                let oi = if i < at { i } else { i + 1 };
                let oj = if j < at { j } else { j + 1 };
                assert(text_lt(names[index@[oi] as int], names[index@[oj] as int]));
            }
            assert forall|m: int| 0 <= m < new_names.len() implies #[trigger] listed(fresh@, m) by {
                let om = if m < k { m } else { m + 1 };
                assert(listed(index@, om));
                let oi = choose|oi: int| 0 <= oi < index@.len() && #[trigger] index@[oi] == om;
                let ni = if oi < at { oi } else { oi - 1 };
                assert(oi != at);
                assert(fresh@[ni] == m);
            }
        }
        *self = ObjectMap { entries, index: fresh };
        assert(members_of(*self) =~= ms.remove(k as int));
    }

    /// Equality of objects: the same names, with equal values, whatever the order.
    pub fn eq<F: Fn(FloatOp, u64, u64) -> u64>(&self, other: &ObjectMap, fpu: &F) -> (r: bool)
        requires
            unit_ok(*fpu),
        ensures
            r == val_eq(
                Val::Object(members_of(*self)),
                Val::Object(members_of(*other)),
                unit(*fpu),
            ),
        decreases self,
    {
        proof {
            use_type_invariant(self);
            use_type_invariant(other);
            self.lemma_distinct();
            other.lemma_distinct();
        }
        let ghost x = members_of(*self);
        let ghost y = members_of(*other);
        let ghost nx = self.names();
        let ghost ny = other.names();
        let ghost f = unit(*fpu);
        if self.entries.len() != other.entries.len() {
            return false;
        }
        let mut p: usize = 0;
        while p < self.index.len()
            invariant
                unit_ok(*fpu),
                f == unit(*fpu),
                index_ok(nx, self.index@),
                index_ok(ny, other.index@),
                nx == self.names(),
                ny == other.names(),
                x == members_of(*self),
                y == members_of(*other),
                names_distinct(x),
                names_distinct(y),
                self.entries@.len() == other.entries@.len(),
                p <= self.index@.len(),
                forall|q: int|
                    0 <= q < p ==> nx[#[trigger] self.index@[q] as int]
                        == ny[other.index@[q] as int] && val_eq(
                        x[self.index@[q] as int].1,
                        y[other.index@[q] as int].1,
                        f,
                    ),
            decreases self.index@.len() - p,
        {
            let ka: usize = self.index[p];
            let kb: usize = other.index[p];
            assert(ka < nx.len() && other.index@[p as int] < ny.len());
            assert(x[ka as int].0 == nx[ka as int] && y[kb as int].0 == ny[kb as int]);
            if *self.entries[ka].0 != *other.entries[kb].0 {
                proof {
                    if val_eq(Val::Object(x), Val::Object(y), f) {
                        law_text_order(nx[ka as int], ny[kb as int]);
                        assert(has(y, x[ka as int].0));
                        assert(has(x, y[kb as int].0));
                        if text_lt(nx[ka as int], ny[kb as int]) {
                            lemma_no_gap(nx, self.index@, ny, other.index@, p as int, place_of(y, x[ka as int].0));
                        } else {
                            lemma_no_gap(ny, other.index@, nx, self.index@, p as int, place_of(x, y[kb as int].0));
                        }
                    }
                }
                return false;
            }
            if !self.entries[ka].1.eq(&other.entries[kb].1, fpu) {
                assert(!val_eq(x[ka as int].1, y[kb as int].1, f));
                return false;
            }
            p += 1;
        }
        proof {
            assert forall|i: int| 0 <= i < x.len() implies has(y, (#[trigger] x[i]).0) by {
                assert(listed(self.index@, i));
                let q = choose|q: int| 0 <= q < self.index@.len() && #[trigger] self.index@[q] == i;
                assert(y[other.index@[q] as int].0 == x[i].0);
            }
            assert forall|j: int| 0 <= j < y.len() implies has(x, (#[trigger] y[j]).0) by {
                assert(listed(other.index@, j));
                let q = choose|q: int|
                    0 <= q < other.index@.len() && #[trigger] other.index@[q] == j;
                assert(nx[self.index@[q] as int] == ny[other.index@[q] as int]);
                assert(x[self.index@[q] as int].0 == y[j].0);
            }
            assert forall|i: int, j: int|
                0 <= i < x.len() && 0 <= j < y.len() && (#[trigger] x[i]).0 == (
                #[trigger] y[j]).0 implies val_eq(x[i].1, y[j].1, f) by {
                assert(listed(self.index@, i));
                let q = choose|q: int| 0 <= q < self.index@.len() && #[trigger] self.index@[q] == i;
                assert(y[other.index@[q] as int].0 == x[i].0);
                assert(other.index@[q] == j);
            }
        }
        true
    }
}

impl ObjectMap {
    /// Whether two objects hold exactly the same members in the same order.
    pub fn same_bits(&self, other: &ObjectMap) -> (r: bool)
        ensures
            r == (members_of(*self) == members_of(*other)),
        decreases self,
    {
        let ghost x = members_of(*self);
        let ghost y = members_of(*other);
        if self.entries.len() != other.entries.len() {
            assert(x.len() != y.len());
            return false;
        }
        let mut i: usize = 0;
        while i < self.entries.len()
            invariant
                i <= self.entries@.len(),
                self.entries@.len() == other.entries@.len(),
                x == members_of(*self),
                y == members_of(*other),
                forall|k: int| 0 <= k < i ==> #[trigger] x[k] == y[k],
            decreases self.entries@.len() - i,
        {
            if *self.entries[i].0 != *other.entries[i].0 {
                assert(x[i as int].0 != y[i as int].0);
                return false;
            }
            if !self.entries[i].1.same_bits(&other.entries[i].1) {
                assert(x[i as int].1 != y[i as int].1);
                return false;
            }
            i += 1;
        }
        assert(x =~= y);
        true
    }
}

impl ObjectMap {
    /// Appends the members as words, and counts the values in them.
    pub(crate) fn push_words(&self, out: &mut Vec<u64>) -> (r: usize)
        ensures
            final(out)@ == old(out)@ + member_words(members_of(*self), members_of(*self).len()),
            r == member_elems(members_of(*self), members_of(*self).len()),
        decreases self,
    {
        let ghost ms = members_of(*self);
        let ghost start = out@;
        let mut count: usize = 0;
        let mut i: usize = 0;
        assert(out@ =~= start + member_words(ms, 0));
        while i < self.entries.len()
            invariant
                i <= self.entries@.len(),
                ms == members_of(*self),
                start == old(out)@,
                out@ == start + member_words(ms, i as nat),
                count == member_elems(ms, i as nat),
            decreases self.entries@.len() - i,
        {
            assert(ms[i as int] == (self.entries@[i as int].0@, val_of(self.entries@[i as int].1)));
            push_text(&self.entries[i].0, out);
            let more: usize = hash_value(&self.entries[i].1, out);
            assert(out@ =~= start + member_words(ms, (i + 1) as nat));
            proof {
                lemma_member_words_outnumber(ms, (i + 1) as nat);
            }
            let n: usize = out.len();
            assert(n >= member_elems(ms, (i + 1) as nat));
            count = count + more;
            i += 1;
        }
        count
    }
}

/// Where two sorted listings agree up to a place and then differ, the smaller name of the two is
/// missing from the other listing.
proof fn lemma_no_gap(
    a: Seq<Seq<char>>,
    ia: Seq<usize>,
    b: Seq<Seq<char>>,
    ib: Seq<usize>,
    p: int,
    k: int,
)
    requires
        index_ok(a, ia),
        index_ok(b, ib),
        a.len() == b.len(),
        0 <= p < ia.len(),
        forall|q: int| 0 <= q < p ==> a[#[trigger] ia[q] as int] == b[ib[q] as int],
        text_lt(a[ia[p] as int], b[ib[p] as int]),
        0 <= k < b.len(),
    ensures
        b[k] != a[ia[p] as int],
{
    assert(listed(ib, k));
    let j = choose|j: int| 0 <= j < ib.len() && #[trigger] ib[j] == k;
    law_text_order(a[ia[p] as int], b[ib[p] as int]);
    law_text_order(b[k], b[k]);
    if j < p {
        assert(a[ia[j] as int] == b[ib[j] as int]);
        assert(text_lt(a[ia[j] as int], a[ia[p] as int]));
    } else if j > p {
        assert(text_lt(b[ib[p] as int], b[ib[j] as int]));
        law_text_order(b[ib[p] as int], b[ib[j] as int]);
    }
}

/// A member that is set is what is found by its name, and no other name means anything else than before; a known
/// name keeps its place, and a new one comes last.
pub proof fn law_set_members_are_found(ms: Seq<(Seq<char>, Val)>, name: Seq<char>, value: Val, other: Seq<char>)
    requires
        names_distinct(ms),
    ensures
        ({
            let after = with_member(ms, name, value);
            &&& names_distinct(after)
            &&& member_value(after, name) == Some(value)
            &&& other != name ==> member_value(after, other) == member_value(ms, other)
            &&& has(ms, name) ==> after.len() == ms.len() && forall|i: int|
                0 <= i < ms.len() ==> (#[trigger] after[i]).0 == ms[i].0
            &&& !(has(ms, name)) ==> after.len() == ms.len() + 1 && after.last() == (name, value) && after.drop_last()
                == ms
        }),
{
    let after = with_member(ms, name, value);
    if has(ms, name) {
        let p = place_of(ms, name);
        assert(0 <= p < ms.len() && ms[p].0 == name);
        assert(after[p] == (name, value));
        lemma_only_place(after, name, p);
        lemma_kept_place(ms, after, other);
    } else {
        assert(after.drop_last() =~= ms);
        assert(after[ms.len() as int] == (name, value));
        assert forall|i: int, j: int| 0 <= i < j < after.len() implies (#[trigger] after[i]).0 != (
        #[trigger] after[j]).0 by {
            assert(after[i] == ms[i]);
            if j < ms.len() {
                assert(after[j] == ms[j]);
            } else {
                assert(ms[i].0 != name);
            }
        }
        lemma_only_place(after, name, ms.len() as int);
        if other != name {
            if has(ms, other) {
                let q = place_of(ms, other);
                assert(after[q] == ms[q]);
                lemma_only_place(after, other, q);
            } else {
                if has(after, other) {
                    let q = place_of(after, other);
                    assert(after[q].0 == other);
                    assert(q < ms.len());
                    assert(ms[q].0 == other);
                }
            }
        }
    }
}

proof fn lemma_only_place(ms: Seq<(Seq<char>, Val)>, name: Seq<char>, p: int)
    requires
        names_distinct(ms),
        0 <= p < ms.len(),
        ms[p].0 == name,
    ensures
        has(ms, name),
        place_of(ms, name) == p,
{
    let q = place_of(ms, name);
    assert(0 <= q < ms.len() && ms[q].0 == name);
    if p < q {
        assert(ms[p].0 != ms[q].0);
    } else if q < p {
        assert(ms[q].0 != ms[p].0);
    }
}

proof fn lemma_kept_place(ms: Seq<(Seq<char>, Val)>, after: Seq<(Seq<char>, Val)>, other: Seq<char>)
    requires
        names_distinct(ms),
        after.len() == ms.len(),
        forall|i: int| 0 <= i < ms.len() ==> (#[trigger] after[i]).0 == ms[i].0,
    ensures
        names_distinct(after),
        has(after, other) == has(ms, other),
        has(ms, other) ==> place_of(after, other) == place_of(ms, other),
{
    assert forall|i: int, j: int| 0 <= i < j < after.len() implies (#[trigger] after[i]).0 != (
    #[trigger] after[j]).0 by {
        assert(after[i].0 == ms[i].0 && after[j].0 == ms[j].0);
    }
    if has(ms, other) {
        let q = place_of(ms, other);
        assert(after[q].0 == ms[q].0);
        lemma_only_place(after, other, q);
    }
    if has(after, other) {
        let q = place_of(after, other);
        assert(after[q].0 == ms[q].0);
    }
}

/// A member that is removed is not found any more, and every other name means what it meant; the others keep
/// their order. Removing a name that is no member changes nothing.
pub proof fn law_removed_members_are_gone(ms: Seq<(Seq<char>, Val)>, name: Seq<char>, other: Seq<char>)
    requires
        names_distinct(ms),
    ensures
        ({
            let after = without_member(ms, name);
            &&& member_value(after, name) is None
            &&& other != name ==> member_value(after, other) == member_value(ms, other)
            &&& !(has(ms, name)) ==> after == ms
            &&& has(ms, name) ==> after.len() == ms.len() - 1
        }),
{
    let after = without_member(ms, name);
    if has(ms, name) {
        let p = place_of(ms, name);
        assert(0 <= p < ms.len() && ms[p].0 == name);
        assert forall|i: int| 0 <= i < after.len() implies (#[trigger] after[i]) == if i < p {
            ms[i]
        } else {
            ms[i + 1]
        } by {}
        assert forall|i: int, j: int| 0 <= i < j < after.len() implies (#[trigger] after[i]).0 != (
        #[trigger] after[j]).0 by {
            let a = if i < p {
                i
            } else {
                i + 1
            };
            let b = if j < p {
                j
            } else {
                j + 1
            };
            assert(ms[a].0 != ms[b].0);
        }
        if has(after, name) {
            let q = place_of(after, name);
            assert(after[q].0 == name);
            let a = if q < p {
                q
            } else {
                q + 1
            };
            lemma_only_place(ms, name, a);
        }
        if other != name {
            if has(ms, other) {
                let q = place_of(ms, other);
                assert(ms[q].0 == other);
                let a = if q < p {
                    q
                } else {
                    q - 1
                };
                assert(after[a] == ms[q]);
                lemma_only_place(after, other, a);
            } else if has(after, other) {
                let q = place_of(after, other);
                assert(after[q].0 == other);
                let a = if q < p {
                    q
                } else {
                    q + 1
                };
                assert(ms[a].0 == other);
            }
        }
    }
}

}

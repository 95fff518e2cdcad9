//! Sets of names, in order.

use vstd::prelude::*;

use crate::ast::Name;
use crate::chars::{law_text_order, law_text_order_transitive, text_lt, text_rank, Rank};
use crate::machine::{known, names_of};

verus! {

/// A set of names. They are kept in order, each once.
#[derive(Debug)]
pub struct NameSet {
    names: Vec<Name>,
}

/// The set of the names of a list.
pub open spec fn name_set(ns: Seq<Seq<char>>) -> Set<Seq<char>> {
    Set::new(|n: Seq<char>| known(ns, n))
}

/// Whether names stand in order, each once.
pub open spec fn in_name_order(ns: Seq<Seq<char>>) -> bool {
    forall|i: int, j: int| 0 <= i < j < ns.len() ==> text_lt(#[trigger] ns[i], #[trigger] ns[j])
}

impl NameSet {
    /// The names, in order.
    pub closed spec fn list(self) -> Seq<Seq<char>> {
        names_of(self.names@)
    }

    /// Whether the names stand in order, each once.
    pub closed spec fn ok(self) -> bool {
        in_name_order(self.list())
    }
}

impl View for NameSet {
    type V = Set<Seq<char>>;

    closed spec fn view(&self) -> Set<Seq<char>> {
        name_set(self.list())
    }
}

impl NameSet {
    /// The empty set.
    pub fn new() -> (r: NameSet)
        ensures
            r@ == Set::<Seq<char>>::empty(),
            r.ok(),
    {
        let r = NameSet { names: Vec::new() };
        assert(r@ =~= Set::<Seq<char>>::empty());
        r
    }

    /// Where a name stands, or would stand, and whether it does.
    fn place(&self, name: &Name) -> (r: (usize, bool))
        requires
            self.ok(),
        ensures
            r.0 <= self.list().len(),
            forall|k: int| 0 <= k < r.0 ==> text_lt(#[trigger] self.list()[k], name@),
            r.1 == self@.contains(name@),
            r.1 ==> r.0 < self.list().len() && self.list()[r.0 as int] == name@,
            !r.1 ==> forall|k: int|
                r.0 <= k < self.list().len() ==> text_lt(name@, #[trigger] self.list()[k]),
    {
        let ghost ns = self.list();
        let mut i: usize = 0;
        while i < self.names.len()
            invariant
                i <= self.names@.len(),
                ns == self.list(),
                ns == names_of(self.names@),
                in_name_order(ns),
                forall|k: int| 0 <= k < i ==> text_lt(#[trigger] ns[k], name@),
            decreases self.names@.len() - i,
        {
            assert(ns[i as int] == self.names@[i as int]@);
            match text_rank(self.names[i].as_str(), name.as_str()) {
                Rank::Less => {
                    i += 1;
                },
                Rank::Equal => {
                    return (i, true);
                },
                Rank::Greater => {
                    proof {
                        law_text_order(ns[i as int], name@);
                        assert forall|k: int| i <= k < ns.len() implies text_lt(
                            name@,
                            #[trigger] ns[k],
                        ) by {
                            if k > i {
                                law_text_order_transitive(name@, ns[i as int], ns[k]);
                            }
                        }
                        assert forall|k: int| 0 <= k < ns.len() implies #[trigger] ns[k]
                            != name@ by {
                            law_text_order(ns[k], name@);
                        }
                    }
                    return (i, false);
                },
            }
        }
        proof {
            assert forall|k: int| 0 <= k < ns.len() implies #[trigger] ns[k] != name@ by {
                law_text_order(ns[k], name@);
            }
        }
        (i, false)
    }

    /// Whether a name is in the set.
    pub fn contains(&self, name: &Name) -> (r: bool)
        requires
            self.ok(),
        ensures
            r == self@.contains(name@),
    {
        self.place(name).1
    }

    /// Adds a name.
    pub fn insert(&mut self, name: Name)
        requires
            old(self).ok(),
        ensures
            final(self)@ == old(self)@.insert(name@),
            final(self).ok(),
    {
        let ghost before = self.list();
        let (at, there) = self.place(&name);
        if there {
            assert(self@ =~= old(self)@.insert(name@));
            return;
        }
        self.names.insert(at, name);
        proof {
            let after = self.list();
            assert(after =~= before.insert(at as int, name@));
            assert(forall|k: int| 0 <= k < at ==> after[k] == before[k]);
            assert(forall|k: int| at < k < after.len() ==> after[k] == before[k - 1]);
            assert forall|i: int, j: int| 0 <= i < j < after.len() implies text_lt(
                #[trigger] after[i],
                #[trigger] after[j],
            ) by {
                if i < at && j > at {
                    assert(text_lt(before[i], name@));
                    assert(text_lt(name@, before[j - 1]));
                    law_text_order_transitive(before[i], name@, before[j - 1]);
                }
            }
            assert forall|n: Seq<char>| self@.contains(n) == old(self)@.insert(name@).contains(
                n,
            ) by {
                if known(before, n) {
                    let k = choose|k: int| 0 <= k < before.len() && before[k] == n;
                    if k < at {
                        assert(after[k] == n);
                    } else {
                        assert(after[k + 1] == n);
                    }
                }
                if known(after, n) {
                    let k = choose|k: int| 0 <= k < after.len() && after[k] == n;
                    if k < at {
                        assert(before[k] == n);
                    } else if k > at {
                        assert(before[k - 1] == n);
                    }
                }
                assert(after[at as int] == name@);
            }
            assert(self@ =~= old(self)@.insert(name@));
        }
    }

    /// Takes a name out.
    pub fn remove(&mut self, name: &Name)
        requires
            old(self).ok(),
        ensures
            final(self)@ == old(self)@.remove(name@),
            final(self).ok(),
    {
        let ghost before = self.list();
        let (at, there) = self.place(name);
        if !there {
            assert(self@ =~= old(self)@.remove(name@));
            return;
        }
        let _ = self.names.remove(at);
        proof {
            let after = self.list();
            assert(after =~= before.remove(at as int));
            assert(forall|k: int| 0 <= k < at ==> after[k] == before[k]);
            assert(forall|k: int| at <= k < after.len() ==> after[k] == before[k + 1]);
            assert forall|n: Seq<char>| self@.contains(n) == old(self)@.remove(name@).contains(
                n,
            ) by {
                if known(after, n) {
                    let k = choose|k: int| 0 <= k < after.len() && after[k] == n;
                    if k < at {
                        assert(before[k] == n);
                        law_text_order(before[k], before[at as int]);
                    } else {
                        assert(before[k + 1] == n);
                        law_text_order(before[at as int], before[k + 1]);
                    }
                }
                if known(before, n) && n != name@ {
                    let k = choose|k: int| 0 <= k < before.len() && before[k] == n;
                    if k < at {
                        assert(after[k] == n);
                    } else {
                        assert(after[k - 1] == n);
                    }
                }
            }
            assert(self@ =~= old(self)@.remove(name@));
        }
    }

    /// Adds all names of another set.
    pub fn extend(&mut self, other: &NameSet)
        requires
            old(self).ok(),
        ensures
            final(self)@ == old(self)@.union(other@),
            final(self).ok(),
    {
        let ghost before = self@;
        let ghost all = other.list();
        let mut i: usize = 0;
        assert(before =~= before.union(name_set(all.take(0))));
        while i < other.names.len()
            invariant
                i <= other.names@.len(),
                all == other.list(),
                all == names_of(other.names@),
                self.ok(),
                self@ =~= before.union(name_set(all.take(i as int))),
            decreases other.names@.len() - i,
        {
            assert(all[i as int] == other.names@[i as int]@);
            self.insert(other.names[i].clone());
            proof {
                let t = all.take(i as int);
                let u = all.take(i + 1);
                assert(u =~= t.push(all[i as int]));
                assert(u[i as int] == all[i as int]);
                assert forall|n: Seq<char>| known(u, n) == (known(t, n) || n == all[i as int]) by {
                    if known(t, n) {
                        let k = choose|k: int| 0 <= k < t.len() && t[k] == n;
                        assert(u[k] == n);
                    }
                    if known(u, n) {
                        let k = choose|k: int| 0 <= k < u.len() && u[k] == n;
                        if k < i {
                            assert(t[k] == n);
                        }
                    }
                }
            }
            i += 1;
        }
        assert(all.take(all.len() as int) =~= all);
    }

    /// How many names there are.
    pub fn len(&self) -> (r: usize)
        ensures
            r == self.list().len(),
    {
        self.names.len()
    }

    /// The `i`-th name, in order.
    pub fn get(&self, i: usize) -> (r: &Name)
        requires
            i < self.list().len(),
        ensures
            r@ == self.list()[i as int],
            self@.contains(r@),
    {
        assert(self.list()[i as int] == self.names@[i as int]@);
        &self.names[i]
    }

    /// A name of the set stands somewhere in it.
    pub proof fn lemma_listed(&self, name: Seq<char>) -> (i: int)
        requires
            self@.contains(name),
        ensures
            0 <= i < self.list().len(),
            self.list()[i] == name,
    {
        choose|i: int| 0 <= i < self.list().len() && self.list()[i] == name
    }
}

}

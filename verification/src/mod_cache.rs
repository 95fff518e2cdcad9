//! Remembering the shapes of module calls.
//!
//! A call without children is remembered by its body, the place it was defined at and the values of
//! its parameters. Under each such key stand a few traces: the `$`-names that the body read, with
//! what each meant, and the shape that came of it. A remembered shape is given back only where every
//! one of those names still means the same, bit for bit. Two generations bound the memory.

use std::rc::Rc;

use vstd::prelude::*;
use vstd::utf8::*;

use crate::ast::Name;
use crate::capture::{after_read, reads_of, CaptureStack, ReadValue, Recorder};
use crate::geo::Geo;
use crate::message::Line;
use crate::scope::{meaning, scope_ok, store_ok, Cell, Scope, Store};
use crate::value::{vals, Val, Value};

verus! {

/// The keys of one generation.
pub const GEN_CAP: usize = 32768;

/// The traces under one key.
pub const MAX_ENTRIES_PER_KEY: usize = 8;

/// How much a value weighs in a key: its elements or bytes, one for what has none.
pub open spec fn weight(v: Val) -> nat {
    match v {
        Val::NumList(xs) => xs.len(),
        Val::List(xs) => xs.len(),
        Val::Str(s) => encode_utf8(s).len(),
        _ => 1,
    }
}

fn value_weight(v: &Value) -> (r: usize)
    ensures
        r == weight(v@),
{
    match v {
        Value::NumList(xs) => xs.len(),
        Value::List(xs) => xs.0.len(),
        Value::Str(s) => s.as_str().as_bytes().len(),
        _ => 1,
    }
}

/// The weight of the first `n` of some values.
pub open spec fn weights(vs: Seq<Val>, n: nat) -> nat
    decreases n,
{
    if n == 0 {
        0
    } else {
        weights(vs, (n - 1) as nat) + weight(vs[n - 1])
    }
}

proof fn lemma_weights_grow(vs: Seq<Val>, n: nat, m: nat)
    requires
        n <= m,
    ensures
        weights(vs, n) <= weights(vs, m),
    decreases m,
{
    if n < m {
        lemma_weights_grow(vs, n, (m - 1) as nat);
    }
}

/// Whether the parameters of a call are light enough to remember it by.
pub fn worth_caching(params: &Vec<Value>, cap: usize) -> (r: bool)
    ensures
        r == (weights(vals(params@), params@.len()) <= cap),
{
    let ghost vs = vals(params@);
    let mut total: usize = 0;
    let mut i: usize = 0;
    while i < params.len()
        invariant
            i <= params@.len(),
            vs == vals(params@),
            total == weights(vs, i as nat),
            total <= cap,
        decreases params@.len() - i,
    {
        let w: usize = value_weight(&params[i]);
        if w > cap - total {
            proof {
                lemma_weights_grow(vs, (i + 1) as nat, params@.len());
            }
            return false;
        }
        total = total + w;
        i += 1;
    }
    true
}

/// The weight of what a name was read as.
pub open spec fn read_weight(v: Option<Val>) -> nat {
    match v {
        Some(v) => weight(v),
        None => 1,
    }
}

/// The weight of the first `n` of some reads.
pub open spec fn reads_weight(rs: Seq<(Seq<char>, Option<Val>)>, n: nat) -> nat
    decreases n,
{
    if n == 0 {
        0
    } else {
        reads_weight(rs, (n - 1) as nat) + read_weight(rs[n - 1].1)
    }
}

proof fn lemma_reads_weight_grows(rs: Seq<(Seq<char>, Option<Val>)>, n: nat, m: nat)
    requires
        n <= m,
    ensures
        reads_weight(rs, n) <= reads_weight(rs, m),
    decreases m,
{
    if n < m {
        lemma_reads_weight_grows(rs, n, (m - 1) as nat);
    }
}

/// Whether some reads are light enough to compare at every later call.
fn reads_within_cap(reads: &Vec<(Name, ReadValue)>, cap: usize) -> (r: bool)
    ensures
        r == (reads_weight(reads_of(reads@), reads@.len()) <= cap),
{
    let ghost rs = reads_of(reads@);
    let mut total: usize = 0;
    let mut i: usize = 0;
    while i < reads.len()
        invariant
            i <= reads@.len(),
            rs == reads_of(reads@),
            total == reads_weight(rs, i as nat),
            total <= cap,
        decreases reads@.len() - i,
    {
        let w: usize = match &reads[i].1 {
            ReadValue::Bound(v) => value_weight(v),
            ReadValue::Unbound => 1,
        };
        if w > cap - total {
            proof {
                lemma_reads_weight_grows(rs, (i + 1) as nat, reads@.len());
            }
            return false;
        }
        total = total + w;
        i += 1;
    }
    true
}

/// What a module call is remembered by: which body it runs, the place it was defined at, and the
/// values of its parameters in their order. Places of the store are never reused, so that a place is
/// the same place for as long as the key lives.
#[derive(Debug)]
pub struct ModKey {
    pub body: u64,
    pub home: Scope,
    pub params: Vec<Value>,
}

/// A key, mathematically.
pub struct Key {
    pub body: u64,
    pub home: Scope,
    pub params: Seq<Val>,
}

impl View for ModKey {
    type V = Key;

    open spec fn view(&self) -> Key {
        Key { body: self.body, home: self.home, params: vals(self.params@) }
    }
}

fn copy_values(xs: &Vec<Value>) -> (r: Vec<Value>)
    ensures
        vals(r@) == vals(xs@),
{
    let mut r: Vec<Value> = Vec::new();
    let mut i: usize = 0;
    while i < xs.len()
        invariant
            i <= xs@.len(),
            r@.len() == i,
            forall|k: int| 0 <= k < i ==> #[trigger] r@[k] == xs@[k],
        decreases xs@.len() - i,
    {
        r.push(xs[i].clone());
        i += 1;
    }
    assert(vals(r@) =~= vals(xs@));
    r
}

fn same_values(a: &Vec<Value>, b: &Vec<Value>) -> (r: bool)
    ensures
        r == (vals(a@) == vals(b@)),
{
    if a.len() != b.len() {
        assert(vals(a@).len() != vals(b@).len());
        return false;
    }
    let mut i: usize = 0;
    while i < a.len()
        invariant
            i <= a@.len(),
            a@.len() == b@.len(),
            forall|k: int| 0 <= k < i ==> #[trigger] vals(a@)[k] == vals(b@)[k],
        decreases a@.len() - i,
    {
        if !a[i].same_bits(&b[i]) {
            assert(vals(a@)[i as int] != vals(b@)[i as int]);
            return false;
        }
        i += 1;
    }
    assert(vals(a@) =~= vals(b@));
    true
}

impl ModKey {
    /// The key of a call.
    pub fn new(body: u64, home: &Scope, params: &Vec<Value>) -> (r: ModKey)
        ensures
            r@ == (Key { body, home: *home, params: vals(params@) }),
    {
        ModKey { body, home: *home, params: copy_values(params) }
    }

    /// Whether two keys are the same: the same body at the same place with the same values.
    pub fn same(&self, other: &ModKey) -> (r: bool)
        ensures
            r == (self@ == other@),
    {
        self.body == other.body && self.home.same_frame(&other.home) && same_values(
            &self.params,
            &other.params,
        )
    }

    fn copy(&self) -> (r: ModKey)
        ensures
            r@ == self@,
    {
        ModKey { body: self.body, home: self.home, params: copy_values(&self.params) }
    }
}

/// What a body read, and the shape that came of it.
#[derive(Debug)]
pub struct Entry {
    pub reads: Vec<(Name, ReadValue)>,
    pub geo: Rc<Geo>,
}

/// A trace, mathematically.
pub struct Trace {
    pub reads: Seq<(Seq<char>, Option<Val>)>,
    pub geo: Rc<Geo>,
}

impl View for Entry {
    type V = Trace;

    open spec fn view(&self) -> Trace {
        Trace { reads: reads_of(self.reads@), geo: self.geo }
    }
}

/// Some traces, mathematically.
pub open spec fn traces(es: Seq<Entry>) -> Seq<Trace> {
    Seq::new(es.len(), |i: int| es[i]@)
}

/// Whether every name that was read still means the same. A name that meant nothing must mean
/// nothing: being bound to `undef` is something else.
pub open spec fn agrees(reads: Seq<(Seq<char>, Option<Val>)>, st: Seq<Cell>, s: Scope) -> bool {
    forall|i: int| 0 <= i < reads.len() ==> meaning(st, s, (#[trigger] reads[i]).0) == reads[i].1
}

/// The first trace from the `i`-th on that agrees.
pub open spec fn probe(ts: Seq<Trace>, st: Seq<Cell>, s: Scope, i: nat) -> Option<nat>
    decreases ts.len() - i,
{
    if i >= ts.len() {
        None
    } else if agrees(ts[i as int].reads, st, s) {
        Some(i)
    } else {
        probe(ts, st, s, i + 1)
    }
}

fn still_agrees(reads: &Vec<(Name, ReadValue)>, store: &Store, call: &Scope) -> (r: bool)
    requires
        store_ok(store@),
        scope_ok(store@, *call),
    ensures
        r == agrees(reads_of(reads@), store@, *call),
{
    let ghost rs = reads_of(reads@);
    let mut i: usize = 0;
    while i < reads.len()
        invariant
            i <= reads@.len(),
            rs == reads_of(reads@),
            store_ok(store@),
            scope_ok(store@, *call),
            forall|k: int| 0 <= k < i ==> meaning(store@, *call, (#[trigger] rs[k]).0) == rs[k].1,
        decreases reads@.len() - i,
    {
        assert(rs[i as int] == (reads@[i as int].0@, reads@[i as int].1@));
        let same: bool = match (&reads[i].1, call.lookup_opt(store, &reads[i].0)) {
            (ReadValue::Bound(v), Some(now)) => v.same_bits(&now),
            (ReadValue::Unbound, None) => true,
            _ => false,
        };
        if !same {
            assert(meaning(store@, *call, rs[i as int].0) != rs[i as int].1);
            return false;
        }
        i += 1;
    }
    true
}

fn probe_entries(entries: &Vec<Entry>, store: &Store, call: &Scope) -> (r: Option<usize>)
    requires
        store_ok(store@),
        scope_ok(store@, *call),
    ensures
        match r {
            Some(i) => probe(traces(entries@), store@, *call, 0) == Some(i as nat) && i < entries@.len(),
            None => probe(traces(entries@), store@, *call, 0) is None,
        },
{
    let ghost ts = traces(entries@);
    let mut i: usize = 0;
    while i < entries.len()
        invariant
            i <= entries@.len(),
            ts == traces(entries@),
            store_ok(store@),
            scope_ok(store@, *call),
            probe(ts, store@, *call, 0) == probe(ts, store@, *call, i as nat),
        decreases entries@.len() - i,
    {
        assert(ts[i as int] == entries@[i as int]@);
        if still_agrees(&entries[i].reads, store, call) {
            return Some(i);
        }
        i += 1;
    }
    None
}

/// One key with its traces.
#[derive(Debug)]
pub struct Row {
    pub key: ModKey,
    pub entries: Vec<Entry>,
}

/// Some rows, mathematically.
pub open spec fn row_pairs(rows: Seq<Row>) -> Seq<(Key, Seq<Trace>)> {
    Seq::new(rows.len(), |i: int| (rows[i].key@, traces(rows[i].entries@)))
}

/// The keys of some rows.
pub open spec fn row_keys(ps: Seq<(Key, Seq<Trace>)>) -> Seq<Key> {
    Seq::new(ps.len(), |i: int| ps[i].0)
}

/// Rows as a map. Each key has one row.
pub open spec fn table(ps: Seq<(Key, Seq<Trace>)>) -> Map<Key, Seq<Trace>> {
    Map::new(|k: Key| row_keys(ps).contains(k), |k: Key| ps[row_keys(ps).index_of(k)].1)
}

proof fn lemma_row(ps: Seq<(Key, Seq<Trace>)>, i: int)
    requires
        row_keys(ps).no_duplicates(),
        0 <= i < ps.len(),
    ensures
        table(ps).dom().contains(ps[i].0),
        table(ps)[ps[i].0] == ps[i].1,
{
    let ks = row_keys(ps);
    assert(ks[i] == ps[i].0);
    assert(ks.contains(ps[i].0));
    let j = ks.index_of(ps[i].0);
    assert(ks[j] == ps[i].0);
}

proof fn lemma_push_row(ps: Seq<(Key, Seq<Trace>)>, k: Key, ts: Seq<Trace>)
    requires
        row_keys(ps).no_duplicates(),
        !row_keys(ps).contains(k),
    ensures
        row_keys(ps.push((k, ts))).no_duplicates(),
        table(ps.push((k, ts))) == table(ps).insert(k, ts),
{
    let qs = ps.push((k, ts));
    assert(row_keys(qs) =~= row_keys(ps).push(k));
    let m = table(ps).insert(k, ts);
    assert forall|i: int| 0 <= i < qs.len() implies m.dom().contains((#[trigger] qs[i]).0)
        && m[qs[i].0] == qs[i].1 by {
        if i < ps.len() {
            lemma_row(ps, i);
            assert(row_keys(ps)[i] == ps[i].0);
        }
    }
    assert forall|x: Key| #[trigger] m.dom().contains(x) implies row_keys(qs).contains(x) by {
        if x == k {
            assert(row_keys(qs)[ps.len() as int] == x);
        } else {
            let i = row_keys(ps).index_of(x);
            assert(row_keys(qs)[i] == x);
        }
    }
    lemma_same_table(qs, table(ps).insert(k, ts));
}

proof fn lemma_set_row(ps: Seq<(Key, Seq<Trace>)>, i: int, ts: Seq<Trace>)
    requires
        row_keys(ps).no_duplicates(),
        0 <= i < ps.len(),
    ensures
        row_keys(ps.update(i, (ps[i].0, ts))).no_duplicates(),
        table(ps.update(i, (ps[i].0, ts))) == table(ps).insert(ps[i].0, ts),
{
    let qs = ps.update(i, (ps[i].0, ts));
    assert(row_keys(qs) =~= row_keys(ps));
    let m = table(ps).insert(ps[i].0, ts);
    assert forall|j: int| 0 <= j < qs.len() implies m.dom().contains((#[trigger] qs[j]).0)
        && m[qs[j].0] == qs[j].1 by {
        lemma_row(ps, j);
        assert(row_keys(ps)[j] == ps[j].0 && row_keys(ps)[i] == ps[i].0);
    }
    assert forall|x: Key| #[trigger] m.dom().contains(x) implies row_keys(qs).contains(x) by {
        lemma_row(ps, i);
    }
    lemma_same_table(qs, table(ps).insert(ps[i].0, ts));
}

proof fn lemma_remove_row(ps: Seq<(Key, Seq<Trace>)>, i: int)
    requires
        row_keys(ps).no_duplicates(),
        0 <= i < ps.len(),
    ensures
        row_keys(ps.remove(i)).no_duplicates(),
        table(ps.remove(i)) == table(ps).remove(ps[i].0),
{
    let qs = ps.remove(i);
    let ks = row_keys(ps);
    assert(row_keys(qs) =~= ks.remove(i));
    assert(ks[i] == ps[i].0);
    assert forall|k: Key| table(ps).remove(ps[i].0).dom().contains(k) implies row_keys(
        qs,
    ).contains(k) by {
        let j = ks.index_of(k);
        assert(ks[j] == k);
        let at = if j < i {
            j
        } else {
            j - 1
        };
        assert(row_keys(qs)[at] == k);
    }
    let m = table(ps).remove(ps[i].0);
    assert forall|j: int| 0 <= j < qs.len() implies m.dom().contains((#[trigger] qs[j]).0)
        && m[qs[j].0] == qs[j].1 by {
        let at = if j < i {
            j
        } else {
            j + 1
        };
        lemma_row(ps, at);
        assert(qs[j] == ps[at]);
        assert(ks[at] == ps[at].0);
    }
    lemma_same_table(qs, table(ps).remove(ps[i].0));
}

/// A map is the table of some rows where it has their keys and, under each, the traces of its row.
proof fn lemma_same_table(ps: Seq<(Key, Seq<Trace>)>, m: Map<Key, Seq<Trace>>)
    requires
        row_keys(ps).no_duplicates(),
        forall|i: int|
            0 <= i < ps.len() ==> m.dom().contains((#[trigger] ps[i]).0) && m[ps[i].0] == ps[i].1,
        forall|k: Key| #[trigger] m.dom().contains(k) ==> row_keys(ps).contains(k),
    ensures
        table(ps) == m,
{
    let t = table(ps);
    assert forall|k: Key| #[trigger] t.dom().contains(k) == m.dom().contains(k) by {
        if row_keys(ps).contains(k) {
            let i = row_keys(ps).index_of(k);
            assert(row_keys(ps)[i] == k);
            assert(ps[i].0 == k);
        }
    }
    assert forall|k: Key| #[trigger] t.dom().contains(k) implies t[k] == m[k] by {
        let i = row_keys(ps).index_of(k);
        assert(row_keys(ps)[i] == k);
        assert(ps[i].0 == k);
    }
    assert(t =~= m);
}

proof fn lemma_table_size(ps: Seq<(Key, Seq<Trace>)>)
    requires
        row_keys(ps).no_duplicates(),
    ensures
        table(ps).dom().finite(),
        table(ps).dom().len() == ps.len(),
{
    let ks = row_keys(ps);
    ks.unique_seq_to_set();
    assert(table(ps).dom() =~= ks.to_set());
}

/// A generation of remembered calls.
#[derive(Debug)]
pub struct Generation {
    rows: Vec<Row>,
}

impl Generation {
    /// What is remembered.
    pub closed spec fn table(&self) -> Map<Key, Seq<Trace>> {
        table(row_pairs(self.rows@))
    }

    /// No key has two rows, and none has more traces than are allowed.
    pub closed spec fn ok(&self) -> bool {
        &&& row_keys(row_pairs(self.rows@)).no_duplicates()
        &&& self.rows@.len() <= GEN_CAP
        &&& forall|i: int|
            0 <= i < self.rows@.len() ==> (#[trigger] self.rows@[i]).entries@.len()
                <= MAX_ENTRIES_PER_KEY
    }

    fn new() -> (r: Generation)
        ensures
            r.ok(),
            r.table() == Map::<Key, Seq<Trace>>::empty(),
    {
        let r = Generation { rows: Vec::new() };
        proof {
            assert(row_pairs(r.rows@).len() == 0);
            lemma_same_table(row_pairs(r.rows@), Map::<Key, Seq<Trace>>::empty());
        }
        r
    }

    /// The number of keys.
    fn len(&self) -> (r: usize)
        requires
            self.ok(),
        ensures
            r == self.table().dom().len(),
            r <= GEN_CAP,
    {
        proof {
            lemma_table_size(row_pairs(self.rows@));
        }
        self.rows.len()
    }

    fn find(&self, key: &ModKey) -> (r: Option<usize>)
        requires
            self.ok(),
        ensures
            match r {
                Some(i) => i < self.rows@.len() && self.rows@[i as int].key@ == key@
                    && self.table().dom().contains(key@) && self.table()[key@] == traces(
                    self.rows@[i as int].entries@,
                ),
                None => !self.table().dom().contains(key@) && !row_keys(
                    row_pairs(self.rows@),
                ).contains(key@),
            },
    {
        let ghost ps = row_pairs(self.rows@);
        let mut i: usize = 0;
        while i < self.rows.len()
            invariant
                i <= self.rows@.len(),
                self.ok(),
                ps == row_pairs(self.rows@),
                forall|k: int| 0 <= k < i ==> (#[trigger] ps[k]).0 != key@,
            decreases self.rows@.len() - i,
        {
            assert(ps[i as int].0 == self.rows@[i as int].key@);
            if self.rows[i].key.same(key) {
                proof {
                    lemma_row(ps, i as int);
                }
                return Some(i);
            }
            i += 1;
        }
        proof {
            if row_keys(ps).contains(key@) {
                let k = row_keys(ps).index_of(key@);
                assert(row_keys(ps)[k] == key@);
                assert(ps[k].0 == key@);
            }
        }
        None
    }

    /// Puts traces under a key that has none.
    fn insert(&mut self, key: ModKey, entries: Vec<Entry>)
        requires
            old(self).ok(),
            old(self).table().dom().len() < GEN_CAP,
            !old(self).table().dom().contains(key@),
            entries@.len() <= MAX_ENTRIES_PER_KEY,
        ensures
            final(self).ok(),
            final(self).table() == old(self).table().insert(key@, traces(entries@)),
    {
        let ghost ps = row_pairs(self.rows@);
        let ghost was = self.rows@;
        let ghost k = key@;
        let ghost ts = traces(entries@);
        proof {
            lemma_table_size(ps);
        }
        self.rows.push(Row { key, entries });
        assert(row_pairs(self.rows@) =~= ps.push((k, ts)));
        proof {
            lemma_push_row(ps, k, ts);
            assert forall|i: int| 0 <= i < self.rows@.len() implies (
            #[trigger] self.rows@[i]).entries@.len() <= MAX_ENTRIES_PER_KEY by {
                if i < was.len() {
                    assert(self.rows@[i] == was[i]);
                }
            }
        }
    }

    /// Takes the traces of a row out.
    fn take(&mut self, i: usize) -> (r: Vec<Entry>)
        requires
            old(self).ok(),
            i < old(self).rows@.len(),
        ensures
            final(self).ok(),
            traces(r@) == traces(old(self).rows@[i as int].entries@),
            r@.len() <= MAX_ENTRIES_PER_KEY,
            final(self).table() == old(self).table().remove(old(self).rows@[i as int].key@),
    {
        let ghost ps = row_pairs(self.rows@);
        let ghost was = self.rows@;
        let row = self.rows.remove(i);
        assert(row == was[i as int]);
        assert(row_pairs(self.rows@) =~= ps.remove(i as int));
        proof {
            lemma_remove_row(ps, i as int);
            assert forall|j: int| 0 <= j < self.rows@.len() implies (
            #[trigger] self.rows@[j]).entries@.len() <= MAX_ENTRIES_PER_KEY by {
                assert(self.rows@[j] == was[if j < i {
                    j
                } else {
                    j + 1
                }]);
            }
        }
        row.entries
    }

    /// Adds a trace to a row.
    fn add(&mut self, i: usize, entry: Entry)
        requires
            old(self).ok(),
            i < old(self).rows@.len(),
        ensures
            final(self).ok(),
            final(self).table() == old(self).table().insert(
                old(self).rows@[i as int].key@,
                with_trace(traces(old(self).rows@[i as int].entries@), entry@),
            ),
    {
        let ghost ps = row_pairs(self.rows@);
        let ghost was = self.rows@;
        let ghost ts = with_trace(traces(was[i as int].entries@), entry@);
        add_entry(&mut self.rows[i].entries, entry);
        assert(row_pairs(self.rows@) =~= ps.update(i as int, (ps[i as int].0, ts)));
        proof {
            lemma_set_row(ps, i as int, ts);
            assert forall|j: int| 0 <= j < self.rows@.len() implies (
            #[trigger] self.rows@[j]).entries@.len() <= MAX_ENTRIES_PER_KEY by {
                if j != i {
                    assert(self.rows@[j] == was[j]);
                }
            }
        }
    }
}

impl Generation {
    proof fn lemma_traces_fit(&self, key: Key)
        requires
            self.ok(),
            self.table().dom().contains(key),
        ensures
            self.table()[key].len() <= MAX_ENTRIES_PER_KEY,
    {
        let ps = row_pairs(self.rows@);
        let i = row_keys(ps).index_of(key);
        assert(row_keys(ps)[i] == key);
        assert(self.rows@[i].entries@.len() <= MAX_ENTRIES_PER_KEY);
    }
}

/// Traces after one more. Where there is no room left the oldest goes.
pub open spec fn with_trace(ts: Seq<Trace>, t: Trace) -> Seq<Trace> {
    if ts.len() >= MAX_ENTRIES_PER_KEY {
        ts.remove(0).push(t)
    } else {
        ts.push(t)
    }
}

fn add_entry(entries: &mut Vec<Entry>, entry: Entry)
    requires
        old(entries)@.len() <= MAX_ENTRIES_PER_KEY,
    ensures
        traces(final(entries)@) == with_trace(traces(old(entries)@), entry@),
        final(entries)@.len() <= MAX_ENTRIES_PER_KEY,
{
    let ghost was = entries@;
    if entries.len() >= MAX_ENTRIES_PER_KEY {
        entries.remove(0);
        assert(traces(entries@) =~= traces(was).remove(0));
    }
    let ghost mid = entries@;
    entries.push(entry);
    assert(traces(entries@) =~= traces(mid).push(entry@));
}

/// The remembered module calls: those of this generation and of the one before it, and how often
/// asking and remembering went which way.
#[derive(Debug)]
pub struct ModCache {
    hot: Generation,
    cold: Generation,
    hits: u64,
    misses: u64,
    stores: u64,
    declined_msg: u64,
    declined_draws: u64,
    declined_impure: u64,
    declined_wide: u64,
}

/// What is remembered, mathematically.
pub struct Memo {
    pub hot: Map<Key, Seq<Trace>>,
    pub cold: Map<Key, Seq<Trace>>,
    pub counts: Counts,
}

/// How often asking and remembering went which way.
#[derive(Debug, Clone, Copy, PartialEq, Eq, Structural)]
pub struct Counts {
    /// Calls that were remembered.
    pub hits: u64,
    /// Calls that were not.
    pub misses: u64,
    /// Shapes that were kept.
    pub stores: u64,
    /// Shapes that were not kept, by reason: the body wrote messages, drew random numbers, read what
    /// is not its own, or read too much.
    pub declined_msg: u64,
    pub declined_draws: u64,
    pub declined_impure: u64,
    pub declined_wide: u64,
}

/// Whether every count can go on counting.
pub open spec fn countable(c: Counts) -> bool {
    &&& c.hits + c.misses < u64::MAX
    &&& c.stores < u64::MAX
    &&& c.declined_msg < u64::MAX
    &&& c.declined_draws < u64::MAX
    &&& c.declined_impure < u64::MAX
    &&& c.declined_wide < u64::MAX
}

/// What is remembered once a key with its traces is put into this generation: where there is no room
/// left a new generation begins and the one before the last is forgotten.
pub open spec fn with_hot(m: Memo, key: Key, ts: Seq<Trace>) -> Memo {
    if m.hot.dom().len() >= GEN_CAP {
        Memo { hot: Map::empty().insert(key, ts), cold: m.hot, counts: m.counts }
    } else {
        Memo { hot: m.hot.insert(key, ts), cold: m.cold, counts: m.counts }
    }
}

/// The traces under a key, of whichever generation.
pub open spec fn recalled(m: Memo, key: Key) -> Option<Seq<Trace>> {
    if m.hot.dom().contains(key) {
        Some(m.hot[key])
    } else if m.cold.dom().contains(key) {
        Some(m.cold[key])
    } else {
        None
    }
}

/// The trace that answers a call.
pub open spec fn answer(m: Memo, key: Key, st: Seq<Cell>, s: Scope) -> Option<Trace> {
    match recalled(m, key) {
        Some(ts) => match probe(ts, st, s, 0) {
            Some(i) => Some(ts[i as int]),
            None => None,
        },
        None => None,
    }
}

/// What is remembered after a call was asked for: a key of the old generation that answered is of
/// this generation from then on.
pub open spec fn after_get(m: Memo, key: Key, st: Seq<Cell>, s: Scope) -> Memo {
    match answer(m, key, st, s) {
        Some(_) => {
            let counts = Counts { hits: (m.counts.hits + 1) as u64, ..m.counts };
            if m.hot.dom().contains(key) {
                Memo { hot: m.hot, cold: m.cold, counts }
            } else {
                with_hot(Memo { hot: m.hot, cold: m.cold.remove(key), counts }, key, m.cold[key])
            }
        },
        None => Memo {
            hot: m.hot,
            cold: m.cold,
            counts: Counts { misses: (m.counts.misses + 1) as u64, ..m.counts },
        },
    }
}

/// The captures after the first `n` of some names were read once more.
pub open spec fn replayed(
    st: Seq<Cell>,
    rec: Recorder,
    s: Scope,
    reads: Seq<(Seq<char>, Option<Val>)>,
    n: nat,
) -> Recorder
    decreases n,
{
    if n == 0 {
        rec
    } else {
        after_read(st, replayed(st, rec, s, reads, (n - 1) as nat), s, reads[n - 1].0)
    }
}

proof fn lemma_replay_needs_captures(
    st: Seq<Cell>,
    rec: Recorder,
    s: Scope,
    reads: Seq<(Seq<char>, Option<Val>)>,
    n: nat,
)
    requires
        rec.caps.len() == 0,
    ensures
        replayed(st, rec, s, reads, n) == rec,
    decreases n,
{
    if n > 0 {
        lemma_replay_needs_captures(st, rec, s, reads, (n - 1) as nat);
    }
}

/// What is remembered after a shape was handed in: nothing new where the body read too much.
pub open spec fn after_put(m: Memo, key: Key, t: Trace, keycap: usize) -> Memo {
    if reads_weight(t.reads, t.reads.len()) > keycap {
        Memo {
            hot: m.hot,
            cold: m.cold,
            counts: Counts { declined_wide: (m.counts.declined_wide + 1) as u64, ..m.counts },
        }
    } else {
        let counts = Counts { stores: (m.counts.stores + 1) as u64, ..m.counts };
        if m.hot.dom().contains(key) {
            Memo { hot: m.hot.insert(key, with_trace(m.hot[key], t)), cold: m.cold, counts }
        } else {
            let older = if m.cold.dom().contains(key) {
                m.cold[key]
            } else {
                Seq::empty()
            };
            with_hot(
                Memo { hot: m.hot, cold: m.cold.remove(key), counts },
                key,
                with_trace(older, t),
            )
        }
    }
}

impl ModCache {
    pub closed spec fn counted(&self) -> Counts {
        Counts {
            hits: self.hits,
            misses: self.misses,
            stores: self.stores,
            declined_msg: self.declined_msg,
            declined_draws: self.declined_draws,
            declined_impure: self.declined_impure,
            declined_wide: self.declined_wide,
        }
    }

    /// Each generation is well formed and bounded.
    pub closed spec fn ok(&self) -> bool {
        self.hot.ok() && self.cold.ok()
    }

    /// Nothing remembered.
    pub fn new() -> (r: ModCache)
        ensures
            r.ok(),
            r@ == (Memo {
                hot: Map::empty(),
                cold: Map::empty(),
                counts: Counts {
                    hits: 0,
                    misses: 0,
                    stores: 0,
                    declined_msg: 0,
                    declined_draws: 0,
                    declined_impure: 0,
                    declined_wide: 0,
                },
            }),
    {
        ModCache {
            hot: Generation::new(),
            cold: Generation::new(),
            hits: 0,
            misses: 0,
            stores: 0,
            declined_msg: 0,
            declined_draws: 0,
            declined_impure: 0,
            declined_wide: 0,
        }
    }

    /// How often asking and remembering went which way.
    pub fn stats(&self) -> (r: Counts)
        ensures
            r == self@.counts,
    {
        Counts {
            hits: self.hits,
            misses: self.misses,
            stores: self.stores,
            declined_msg: self.declined_msg,
            declined_draws: self.declined_draws,
            declined_impure: self.declined_impure,
            declined_wide: self.declined_wide,
        }
    }

    /// The number of keys, of both generations.
    pub fn live_keys(&self) -> (r: usize)
        requires
            self.ok(),
        ensures
            r == self@.hot.dom().len() + self@.cold.dom().len(),
    {
        self.hot.len() + self.cold.len()
    }

    fn insert_hot(&mut self, key: ModKey, entries: Vec<Entry>)
        requires
            old(self).ok(),
            !old(self)@.hot.dom().contains(key@),
            entries@.len() <= MAX_ENTRIES_PER_KEY,
        ensures
            final(self).ok(),
            final(self)@ == with_hot(old(self)@, key@, traces(entries@)),
    {
        if self.hot.len() >= GEN_CAP {
            let mut fresh = Generation::new();
            std::mem::swap(&mut fresh, &mut self.hot);
            self.cold = fresh;
        }
        self.hot.insert(key, entries);
    }

    /// The remembered shape of a call: that of the first trace under its key of which every read
    /// still means the same. What the skipped body read, the bodies around the call have read now.
    pub fn get(&mut self, key: &ModKey, store: &Store, call: &Scope, captures: &mut CaptureStack) -> (r:
        Option<Rc<Geo>>)
        requires
            old(self).ok(),
            countable(old(self)@.counts),
            store_ok(store@),
            scope_ok(store@, *call),
        ensures
            final(self).ok(),
            final(self)@ == after_get(old(self)@, key@, store@, *call),
            match answer(old(self)@, key@, store@, *call) {
                Some(t) => r == Some(t.geo) && final(captures)@ == replayed(
                    store@,
                    old(captures)@,
                    *call,
                    t.reads,
                    t.reads.len(),
                ),
                None => r is None && *final(captures) == *old(captures),
            },
    {
        match self.hot.find(key) {
            Some(at) => {
                let entries = &self.hot.rows[at].entries;
                match probe_entries(entries, store, call) {
                    Some(i) => {
                        assert(traces(entries@)[i as int] == entries@[i as int]@);
                        replay(&entries[i].reads, store, call, captures);
                        let geo = entries[i].geo.clone();
                        self.hits = self.hits + 1;
                        Some(geo)
                    },
                    None => {
                        self.misses = self.misses + 1;
                        None
                    },
                }
            },
            None => match self.cold.find(key) {
                Some(at) => {
                    let entries = &self.cold.rows[at].entries;
                    match probe_entries(entries, store, call) {
                        Some(i) => {
                            assert(traces(entries@)[i as int] == entries@[i as int]@);
                            replay(&entries[i].reads, store, call, captures);
                            let geo = entries[i].geo.clone();
                            self.hits = self.hits + 1;
                            let taken = self.cold.take(at);
                            self.insert_hot(key.copy(), taken);
                            Some(geo)
                        },
                        None => {
                            self.misses = self.misses + 1;
                            None
                        },
                    }
                },
                None => {
                    self.misses = self.misses + 1;
                    None
                },
            },
        }
    }

    /// Remembers the shape of a call with what its body read, unless it read too much.
    pub fn put(&mut self, key: ModKey, geo: Rc<Geo>, reads: Vec<(Name, ReadValue)>, keycap: usize)
        requires
            old(self).ok(),
            countable(old(self)@.counts),
        ensures
            final(self).ok(),
            final(self)@ == after_put(
                old(self)@,
                key@,
                (Trace { reads: reads_of(reads@), geo }),
                keycap,
            ),
    {
        if !reads_within_cap(&reads, keycap) {
            self.declined_wide = self.declined_wide + 1;
            return ;
        }
        self.stores = self.stores + 1;
        let entry = Entry { reads, geo };
        match self.hot.find(&key) {
            Some(at) => {
                self.hot.add(at, entry);
            },
            None => {
                let mut entries: Vec<Entry> = match self.cold.find(&key) {
                    Some(at) => self.cold.take(at),
                    None => {
                        let none: Vec<Entry> = Vec::new();
                        assert(traces(none@) =~= Seq::empty());
                        assert(self.cold.table().remove(key@) =~= self.cold.table());
                        none
                    },
                };
                add_entry(&mut entries, entry);
                self.insert_hot(key, entries);
            },
        }
    }

    /// Counts a shape that was not kept, once for each reason.
    pub fn note_decline(&mut self, msg: bool, draws: bool, impure: bool)
        requires
            old(self).ok(),
            countable(old(self)@.counts),
        ensures
            final(self).ok(),
            final(self)@.hot == old(self)@.hot,
            final(self)@.cold == old(self)@.cold,
            final(self)@.counts == (Counts {
                declined_msg: (old(self)@.counts.declined_msg + one_if(msg)) as u64,
                declined_draws: (old(self)@.counts.declined_draws + one_if(draws)) as u64,
                declined_impure: (old(self)@.counts.declined_impure + one_if(impure)) as u64,
                ..old(self)@.counts
            }),
    {
        if msg {
            self.declined_msg = self.declined_msg + 1;
        }
        if draws {
            self.declined_draws = self.declined_draws + 1;
        }
        if impure {
            self.declined_impure = self.declined_impure + 1;
        }
    }
}

impl ModCache {
    /// Neither generation has more keys than it may, and no key has more traces.
    pub proof fn law_is_bounded(&self, key: Key)
        requires
            self.ok(),
        ensures
            self@.hot.dom().len() <= GEN_CAP,
            self@.cold.dom().len() <= GEN_CAP,
            recalled(self@, key) is Some ==> recalled(self@, key)->0.len() <= MAX_ENTRIES_PER_KEY,
    {
        lemma_table_size(row_pairs(self.hot.rows@));
        lemma_table_size(row_pairs(self.cold.rows@));
        if self@.hot.dom().contains(key) {
            self.hot.lemma_traces_fit(key);
        } else if self@.cold.dom().contains(key) {
            self.cold.lemma_traces_fit(key);
        }
    }
}

/// One where a condition holds.
pub open spec fn one_if(b: bool) -> int {
    if b {
        1
    } else {
        0
    }
}

impl View for ModCache {
    type V = Memo;

    closed spec fn view(&self) -> Memo {
        Memo { hot: self.hot.table(), cold: self.cold.table(), counts: self.counted() }
    }
}

fn replay(reads: &Vec<(Name, ReadValue)>, store: &Store, call: &Scope, captures: &mut CaptureStack)
    requires
        store_ok(store@),
        scope_ok(store@, *call),
    ensures
        final(captures)@ == replayed(
            store@,
            old(captures)@,
            *call,
            reads_of(reads@),
            reads@.len(),
        ),
{
    let ghost rs = reads_of(reads@);
    let ghost was = captures@;
    if !captures.captures_active() {
        proof {
            lemma_replay_needs_captures(store@, was, *call, rs, rs.len());
        }
        return ;
    }
    let mut i: usize = 0;
    while i < reads.len()
        invariant
            i <= reads@.len(),
            rs == reads_of(reads@),
            was == old(captures)@,
            store_ok(store@),
            scope_ok(store@, *call),
            captures@ == replayed(store@, was, *call, rs, i as nat),
        decreases reads@.len() - i,
    {
        assert(rs[i as int].0 == reads@[i as int].0@);
        let _ = captures.read(store, *call, &reads[i].0);
        i += 1;
    }
}

proof fn lemma_probe(ts: Seq<Trace>, st: Seq<Cell>, s: Scope, i: nat)
    ensures
        match probe(ts, st, s, i) {
            Some(j) => i <= j < ts.len() && agrees(ts[j as int].reads, st, s) && forall|k: int|
                i <= k < j ==> !agrees((#[trigger] ts[k]).reads, st, s),
            None => forall|k: int| i <= k < ts.len() ==> !agrees((#[trigger] ts[k]).reads, st, s),
        },
    decreases ts.len() - i,
{
    if i < ts.len() && !agrees(ts[i as int].reads, st, s) {
        lemma_probe(ts, st, s, i + 1);
    }
}

/// A shape is given back only where every name that its body read means, where the call is made,
/// exactly what it meant then.
pub proof fn law_hits_agree(m: Memo, key: Key, st: Seq<Cell>, s: Scope)
    requires
        answer(m, key, st, s) is Some,
    ensures
        agrees(answer(m, key, st, s)->0.reads, st, s),
{
    lemma_probe(recalled(m, key)->0, st, s, 0);
}

/// What is remembered is given back: after a shape is kept, a call with the same key made where its
/// reads still mean the same is answered, and by that very shape where no older trace of the key
/// agrees.
pub proof fn law_kept_shapes_are_found(
    m: Memo,
    key: Key,
    t: Trace,
    keycap: usize,
    st: Seq<Cell>,
    s: Scope,
)
    requires
        reads_weight(t.reads, t.reads.len()) <= keycap,
        agrees(t.reads, st, s),
        recalled(m, key) is Some ==> recalled(m, key)->0.len() <= MAX_ENTRIES_PER_KEY,
    ensures
        answer(after_put(m, key, t, keycap), key, st, s) is Some,
        answer(m, key, st, s) is None ==> answer(after_put(m, key, t, keycap), key, st, s) == Some(t),
{
    let older = match recalled(m, key) {
        Some(ts) => ts,
        None => Seq::empty(),
    };
    let new = with_trace(older, t);
    assert(recalled(after_put(m, key, t, keycap), key) == Some(new));
    lemma_probe(new, st, s, 0);
    lemma_probe(older, st, s, 0);
    assert(new.last() == t);
    assert(agrees(new[new.len() - 1].reads, st, s));
    if answer(m, key, st, s) is None {
        assert forall|k: int| 0 <= k < new.len() - 1 implies !agrees(
            (#[trigger] new[k]).reads,
            st,
            s,
        ) by {
            if older.len() >= MAX_ENTRIES_PER_KEY {
                assert(new[k] == older[k + 1]);
            } else {
                assert(new[k] == older[k]);
            }
        }
    }
}

/// A module that reads no name that differs between two calls is answered the same at both.
pub proof fn law_unread_names_do_not_matter(m: Memo, key: Key, st: Seq<Cell>, a: Scope, b: Scope)
    requires
        recalled(m, key) matches Some(ts) ==> forall|i: int, j: int|
            0 <= i < ts.len() && 0 <= j < ts[i].reads.len() ==> meaning(
                st,
                a,
                (#[trigger] ts[i].reads[j]).0,
            ) == meaning(st, b, ts[i].reads[j].0),
    ensures
        answer(m, key, st, a) == answer(m, key, st, b),
{
    if let Some(ts) = recalled(m, key) {
        assert forall|i: int| 0 <= i < ts.len() implies agrees((#[trigger] ts[i]).reads, st, a)
            == agrees(ts[i].reads, st, b) by {
            let rs = ts[i].reads;
            assert forall|j: int| 0 <= j < rs.len() implies meaning(st, a, (#[trigger] rs[j]).0)
                == meaning(st, b, rs[j].0) by {
                assert(ts[i].reads[j] == rs[j]);
            }
        }
        lemma_probe(ts, st, a, 0);
        lemma_probe(ts, st, b, 0);
    }
}

/// Where this generation has room, asking forgets nothing: every key keeps its traces.
pub proof fn law_asking_forgets_nothing(m: Memo, key: Key, other: Key, st: Seq<Cell>, s: Scope)
    requires
        m.hot.dom().len() < GEN_CAP,
    ensures
        recalled(after_get(m, key, st, s), other) == recalled(m, other),
{
}

/// What evaluating a call gives and the console lines it writes, by its key and where it is made.
pub struct Evaluation {
    pub made: spec_fn(Key, Seq<Cell>, Scope) -> Rc<Geo>,
    pub said: spec_fn(Key, Seq<Cell>, Scope) -> Seq<Line>,
}

/// Whether a trace tells the truth about a key: wherever its reads mean what they meant, evaluating
/// the call gives its shape and writes nothing.
pub open spec fn honest(e: Evaluation, key: Key, t: Trace) -> bool {
    forall|st: Seq<Cell>, s: Scope| #[trigger]
        agrees(t.reads, st, s) ==> (e.made)(key, st, s) == t.geo && (e.said)(key, st, s).len() == 0
}

/// Whether all that is remembered tells the truth.
pub open spec fn truthful(e: Evaluation, m: Memo) -> bool {
    &&& forall|key: Key, i: int|
        m.hot.dom().contains(key) && 0 <= i < m.hot[key].len() ==> honest(
            e,
            key,
            #[trigger] m.hot[key][i],
        )
    &&& forall|key: Key, i: int|
        m.cold.dom().contains(key) && 0 <= i < m.cold[key].len() ==> honest(
            e,
            key,
            #[trigger] m.cold[key][i],
        )
}

/// An empty memory tells the truth.
pub proof fn law_nothing_remembered_is_true(e: Evaluation, counts: Counts)
    ensures
        truthful(e, Memo { hot: Map::empty(), cold: Map::empty(), counts }),
{
}

/// A remembered shape is the one that evaluating the call would give, and that would write nothing,
/// where all that is remembered tells the truth; and asking keeps it so.
pub proof fn law_answers_are_true(e: Evaluation, m: Memo, key: Key, st: Seq<Cell>, s: Scope)
    requires
        truthful(e, m),
    ensures
        answer(m, key, st, s) matches Some(t) ==> t.geo == (e.made)(key, st, s) && (e.said)(
            key,
            st,
            s,
        ).len() == 0,
        truthful(e, after_get(m, key, st, s)),
{
    match recalled(m, key) {
        Some(ts) => {
            lemma_probe(ts, st, s, 0);
        },
        None => {},
    }
}

/// Keeping a shape that tells the truth keeps all that is remembered so.
pub proof fn law_keeping_keeps_the_truth(e: Evaluation, m: Memo, key: Key, t: Trace, keycap: usize)
    requires
        truthful(e, m),
        honest(e, key, t),
    ensures
        truthful(e, after_put(m, key, t, keycap)),
{
    let older = match recalled(m, key) {
        Some(ts) => ts,
        None => Seq::empty(),
    };
    let new = with_trace(older, t);
    assert forall|i: int| 0 <= i < new.len() implies honest(e, key, #[trigger] new[i]) by {
        if i == new.len() - 1 {
            assert(new[i] == t);
        } else if older.len() >= MAX_ENTRIES_PER_KEY {
            assert(new[i] == older[i + 1]);
        } else {
            assert(new[i] == older[i]);
        }
    }
}

/// A call as it is made: its key, where it is made, what evaluating it reads, and whether its shape
/// is worth keeping.
pub struct Made {
    pub key: Key,
    pub st: Seq<Cell>,
    pub at: Scope,
    pub reads: Seq<(Seq<char>, Option<Val>)>,
    pub keep: bool,
}

/// What is remembered after the first `n` of some calls, where each takes the remembered shape if
/// there is one and is evaluated otherwise; the shapes that the calls got; and the console lines of
/// those that were evaluated.
pub open spec fn served(e: Evaluation, m: Memo, calls: Seq<Made>, n: nat, keycap: usize) -> (
    Memo,
    Seq<Rc<Geo>>,
    Seq<Line>,
)
    decreases n,
{
    if n == 0 {
        (m, Seq::empty(), Seq::empty())
    } else {
        let (before, shapes, said) = served(e, m, calls, (n - 1) as nat, keycap);
        let c = calls[n - 1];
        let asked = after_get(before, c.key, c.st, c.at);
        match answer(before, c.key, c.st, c.at) {
            Some(t) => (asked, shapes.push(t.geo), said),
            None => {
                let geo = (e.made)(c.key, c.st, c.at);
                (
                    if c.keep {
                        after_put(asked, c.key, Trace { reads: c.reads, geo }, keycap)
                    } else {
                        asked
                    },
                    shapes.push(geo),
                    said + (e.said)(c.key, c.st, c.at),
                )
            },
        }
    }
}

/// The console lines of the first `n` of some calls, where each is evaluated.
pub open spec fn lines_of_calls(e: Evaluation, calls: Seq<Made>, n: nat) -> Seq<Line>
    decreases n,
{
    if n == 0 {
        Seq::empty()
    } else {
        let c = calls[n - 1];
        lines_of_calls(e, calls, (n - 1) as nat) + (e.said)(c.key, c.st, c.at)
    }
}

/// Remembering changes no shape and loses no console line: calls that take what is remembered where
/// they can get, one by one, what evaluating each of them would give, and together they write what
/// evaluating all of them would write. What a kept call is said to have read must decide its shape,
/// and a kept call writes nothing.
pub proof fn law_remembering_changes_no_shape(
    e: Evaluation,
    m: Memo,
    calls: Seq<Made>,
    n: nat,
    keycap: usize,
)
    requires
        truthful(e, m),
        n <= calls.len(),
        forall|i: int|
            0 <= i < calls.len() && (#[trigger] calls[i]).keep ==> honest(
                e,
                calls[i].key,
                Trace {
                    reads: calls[i].reads,
                    geo: (e.made)(calls[i].key, calls[i].st, calls[i].at),
                },
            ),
    ensures
        truthful(e, served(e, m, calls, n, keycap).0),
        served(e, m, calls, n, keycap).1.len() == n,
        forall|i: int|
            0 <= i < n ==> #[trigger] served(e, m, calls, n, keycap).1[i] == (e.made)(
                calls[i].key,
                calls[i].st,
                calls[i].at,
            ),
        served(e, m, calls, n, keycap).2 == lines_of_calls(e, calls, n),
    decreases n,
{
    if n > 0 {
        let k = (n - 1) as nat;
        law_remembering_changes_no_shape(e, m, calls, k, keycap);
        let before = served(e, m, calls, k, keycap).0;
        let c = calls[n - 1];
        law_answers_are_true(e, before, c.key, c.st, c.at);
        let said = served(e, m, calls, k, keycap).2;
        assert(said + Seq::<Line>::empty() =~= said);
        if answer(before, c.key, c.st, c.at) is Some {
            assert((e.said)(c.key, c.st, c.at) =~= Seq::<Line>::empty());
        }
        if c.keep {
            law_keeping_keeps_the_truth(
                e,
                after_get(before, c.key, c.st, c.at),
                c.key,
                Trace { reads: c.reads, geo: (e.made)(c.key, c.st, c.at) },
                keycap,
            );
        }
    }
}

/// The weight of parameters is that of each of them together: one for a number or a truth value, and for a vector as much
/// as it has elements.
pub proof fn law_weights(a: Seq<Val>, b: Seq<Val>, v: Val, xs: Seq<u64>)
    ensures
        weights(a + b, (a + b).len()) == weights(a, a.len()) + weights(b, b.len()),
        weights(seq![v], 1) == weight(v),
        v is Num || v is Bool || v is Undef ==> weight(v) == 1,
        weight(Val::NumList(xs)) == xs.len(),
    decreases b.len(),
{
    reveal_with_fuel(weights, 2);
    if b.len() == 0 {
        assert(a + b =~= a);
    } else {
        let c = b.drop_last();
        law_weights(a, c, v, xs);
        lemma_same_weights(a + b, a + c, (a + c).len());
        lemma_same_weights(b, c, c.len());
    }
}

proof fn lemma_same_weights(a: Seq<Val>, b: Seq<Val>, n: nat)
    requires
        n <= a.len(),
        n <= b.len(),
        forall|i: int| 0 <= i < n ==> a[i] == b[i],
    ensures
        weights(a, n) == weights(b, n),
    decreases n,
{
    if n > 0 {
        lemma_same_weights(a, b, (n - 1) as nat);
    }
}

} // verus!

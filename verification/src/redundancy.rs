//! How often calls repeat: whether remembering their values or shapes would pay.
//!
//! Each call is counted under two keys: one of what is called and its arguments, and one that also
//! has every `$`-name that reaches the call. What a memory could save lies between the two. A key is
//! a hash, made by a function that is handed in, of a row of words.

use vstd::prelude::*;
use vstd::utf8::*;

use crate::ast::Name;
use crate::machine::named_vals;
use crate::value::{lemma_list_view, vals, Val, Value, ValueList};

verus! {

/// The bytes of a text as words, with an end mark.
pub open spec fn text_words(s: Seq<char>) -> Seq<u64> {
    let bytes = encode_utf8(s);
    Seq::new(bytes.len(), |i: int| bytes[i] as u64).push(255)
}

/// A value as words: its kind, then what it holds. Numbers go by their bits.
pub open spec fn words(v: Val) -> Seq<u64>
    decreases v, 0nat,
{
    match v {
        Val::Undef => seq![0u64],
        Val::Bool(b) => seq![
            1u64,
            if b {
                1u64
            } else {
                0u64
            },
        ],
        Val::Num(n) => seq![2u64, n],
        Val::Str(s) => seq![3u64] + text_words(s),
        Val::NumList(xs) => seq![4u64] + xs,
        Val::List(xs) => seq![5u64] + list_words(xs, xs.len()),
        Val::Range { start, step, end } => seq![6u64, start, step, end],
        Val::Function { closure_id, .. } => seq![7u64, closure_id as u64],
        Val::Object(ms) => seq![8u64] + member_words(ms, ms.len()),
    }
}

/// The first `n` of some values as words.
pub open spec fn list_words(xs: Seq<Val>, n: nat) -> Seq<u64>
    decreases xs, n,
{
    if n == 0 || n > xs.len() {
        Seq::empty()
    } else {
        list_words(xs, (n - 1) as nat) + words(xs[n - 1])
    }
}

/// The first `n` of some named values as words.
pub open spec fn member_words(ms: Seq<(Seq<char>, Val)>, n: nat) -> Seq<u64>
    decreases ms, n,
{
    if n == 0 || n > ms.len() {
        Seq::empty()
    } else {
        member_words(ms, (n - 1) as nat) + text_words(ms[n - 1].0) + words(ms[n - 1].1)
    }
}

/// How many values there are in a value, itself counted.
pub open spec fn elems(v: Val) -> nat
    decreases v, 0nat,
{
    match v {
        Val::NumList(xs) => 1 + xs.len(),
        Val::List(xs) => 1 + list_elems(xs, xs.len()),
        Val::Object(ms) => 1 + member_elems(ms, ms.len()),
        _ => 1,
    }
}

/// How many values there are in the first `n` of some values.
pub open spec fn list_elems(xs: Seq<Val>, n: nat) -> nat
    decreases xs, n,
{
    if n == 0 || n > xs.len() {
        0
    } else {
        list_elems(xs, (n - 1) as nat) + elems(xs[n - 1])
    }
}

/// How many values there are in the first `n` of some named values.
pub open spec fn member_elems(ms: Seq<(Seq<char>, Val)>, n: nat) -> nat
    decreases ms, n,
{
    if n == 0 || n > ms.len() {
        0
    } else {
        member_elems(ms, (n - 1) as nat) + elems(ms[n - 1].1)
    }
}

/// A value has a word for each value in it.
pub proof fn law_words_outnumber_values(v: Val)
    ensures
        elems(v) <= words(v).len(),
    decreases v, 0nat,
{
    match v {
        Val::List(xs) => {
            lemma_list_words_outnumber(xs, xs.len());
        },
        Val::Object(ms) => {
            lemma_member_words_outnumber(ms, ms.len());
        },
        _ => {},
    }
}

proof fn lemma_list_words_outnumber(xs: Seq<Val>, n: nat)
    ensures
        list_elems(xs, n) <= list_words(xs, n).len(),
    decreases xs, n,
{
    if n > 0 && n <= xs.len() {
        lemma_list_words_outnumber(xs, (n - 1) as nat);
        law_words_outnumber_values(xs[n - 1]);
    }
}

pub(crate) proof fn lemma_member_words_outnumber(ms: Seq<(Seq<char>, Val)>, n: nat)
    ensures
        member_elems(ms, n) <= member_words(ms, n).len(),
    decreases ms, n,
{
    if n > 0 && n <= ms.len() {
        lemma_member_words_outnumber(ms, (n - 1) as nat);
        law_words_outnumber_values(ms[n - 1].1);
    }
}

/// Appends a text as words.
pub(crate) fn push_text(s: &Name, out: &mut Vec<u64>)
    ensures
        final(out)@ == old(out)@ + text_words(s@),
{
    let bytes = s.as_str().as_bytes();
    let ghost start = out@;
    let ghost all = text_words(s@);
    let mut i: usize = 0;
    assert(out@ =~= start + all.take(0));
    while i < bytes.len()
        invariant
            i <= bytes@.len(),
            bytes@ == encode_utf8(s@),
            all == text_words(s@),
            start == old(out)@,
            out@ == start + all.take(i as int),
        decreases bytes@.len() - i,
    {
        out.push(bytes[i] as u64);
        assert(out@ =~= start + all.take(i + 1));
        i += 1;
    }
    out.push(255);
    assert(out@ =~= start + all);
}

fn push_list(xs: &ValueList, out: &mut Vec<u64>) -> (r: usize)
    ensures
        final(out)@ == old(out)@ + list_words(vals(xs.0@), xs.0@.len()),
        r == list_elems(vals(xs.0@), xs.0@.len()),
    decreases xs,
{
    let ghost vs = vals(xs.0@);
    let ghost start = out@;
    let mut count: usize = 0;
    let mut i: usize = 0;
    assert(out@ =~= start + list_words(vs, 0));
    while i < xs.0.len()
        invariant
            i <= xs.0@.len(),
            vs == vals(xs.0@),
            start == old(out)@,
            out@ == start + list_words(vs, i as nat),
            count == list_elems(vs, i as nat),
        decreases xs.0@.len() - i,
    {
        let more: usize = hash_value(&xs.0[i], out);
        assert(out@ =~= start + list_words(vs, (i + 1) as nat));
        proof {
            lemma_list_words_outnumber(vs, (i + 1) as nat);
        }
        let n: usize = out.len();
        assert(n >= list_elems(vs, (i + 1) as nat));
        count = count + more;
        i += 1;
    }
    count
}

/// Appends a value as words, and counts the values in it.
pub fn hash_value(v: &Value, out: &mut Vec<u64>) -> (r: usize)
    ensures
        final(out)@ == old(out)@ + words(v@),
        r == elems(v@),
    decreases v,
{
    let ghost start = out@;
    match v {
        Value::Undef => {
            out.push(0);
            assert(out@ =~= start + words(v@));
            1
        },
        Value::Bool(b) => {
            out.push(1);
            out.push(
                if *b {
                    1
                } else {
                    0
                },
            );
            assert(out@ =~= start + words(v@));
            1
        },
        Value::Num(n) => {
            out.push(2);
            out.push(*n);
            assert(out@ =~= start + words(v@));
            1
        },
        Value::Str(s) => {
            out.push(3);
            push_text(s, out);
            assert(out@ =~= start + words(v@));
            1
        },
        Value::NumList(xs) => {
            out.push(4);
            let ghost mid = out@;
            let mut i: usize = 0;
            assert(out@ =~= mid + xs@.take(0));
            while i < xs.len()
                invariant
                    i <= xs@.len(),
                    out@ == mid + xs@.take(i as int),
                decreases xs@.len() - i,
            {
                out.push(xs[i]);
                assert(out@ =~= mid + xs@.take(i + 1));
                i += 1;
            }
            assert(xs@.take(xs@.len() as int) =~= xs@);
            assert(out@ =~= start + words(v@));
            let n: usize = out.len();
            assert(n > xs@.len());
            xs.len() + 1
        },
        Value::List(xs) => {
            proof {
                lemma_list_view(*xs);
            }
            out.push(5);
            let count: usize = push_list(xs, out);
            assert(out@ =~= start + words(v@));
            proof {
                law_words_outnumber_values(v@);
            }
            let n: usize = out.len();
            assert(n >= elems(v@));
            count + 1
        },
        Value::Range { start: a, step: b, end: c } => {
            out.push(6);
            out.push(*a);
            out.push(*b);
            out.push(*c);
            assert(out@ =~= start + words(v@));
            1
        },
        Value::Function { closure_id, .. } => {
            out.push(7);
            out.push(*closure_id as u64);
            assert(out@ =~= start + words(v@));
            1
        },
        Value::Object(o) => {
            out.push(8);
            let count: usize = o.push_words(out);
            assert(out@ =~= start + words(v@));
            proof {
                law_words_outnumber_values(v@);
            }
            let n: usize = out.len();
            assert(n >= elems(v@));
            count + 1
        },
    }
}

/// Hashes can be asked for anything, and the same words have one hash.
pub open spec fn hash_ok<H: Fn(u64, &Vec<u64>) -> u64>(h: H) -> bool {
    &&& forall|seed: u64, ws: &Vec<u64>| call_requires(h, (seed, ws))
    &&& forall|seed: u64, a: &Vec<u64>, b: &Vec<u64>, r: u64, s: u64|
        #[trigger] call_ensures(h, (seed, a), r) && #[trigger] call_ensures(h, (seed, b), s) && a@
            == b@ ==> r == s
}

/// Whether a hash may be the hash of some words.
pub open spec fn may_hash<H: Fn(u64, &Vec<u64>) -> u64>(h: H, seed: u64, ws: Seq<u64>, r: u64) -> bool {
    exists|a: &Vec<u64>| a@ == ws && #[trigger] call_ensures(h, (seed, a), r)
}

/// Hashing as a mathematical function.
pub open spec fn hashing<H: Fn(u64, &Vec<u64>) -> u64>(h: H) -> spec_fn(u64, Seq<u64>) -> u64 {
    |seed: u64, ws: Seq<u64>| choose|r: u64| may_hash(h, seed, ws, r)
}

fn hash64<H: Fn(u64, &Vec<u64>) -> u64>(seed: u64, ws: &Vec<u64>, h: &H) -> (r: u64)
    requires
        hash_ok(*h),
    ensures
        r == hashing(*h)(seed, ws@),
{
    let r: u64 = h(seed, ws);
    proof {
        assert(may_hash(*h, seed, ws@, r));
        let s = hashing(*h)(seed, ws@);
        assert(may_hash(*h, seed, ws@, s));
    }
    r
}

/// The number that a call is told by: its body and the place it was defined at.
pub open spec fn call_number(body: u64, home: usize) -> u64 {
    body ^ ((home as u64) << 1 | (home as u64) >> 63)
}

/// The number that a call is told by.
pub fn call_id(body: u64, home: usize) -> (r: u64)
    ensures
        r == call_number(body, home),
{
    let h: u64 = home as u64;
    body ^ (h << 1 | h >> 63)
}

/// How often each key came.
#[derive(Debug)]
pub struct Tally {
    pub rows: Vec<(u64, u64)>,
}

/// The place of a key.
pub open spec fn row_of(rows: Seq<(u64, u64)>, k: u64, i: nat) -> Option<nat>
    decreases rows.len() - i,
{
    if i >= rows.len() {
        None
    } else if rows[i as int].0 == k {
        Some(i)
    } else {
        row_of(rows, k, i + 1)
    }
}

/// The counts after a key came once more. A new key goes last.
pub open spec fn bumped(rows: Seq<(u64, u64)>, k: u64) -> Seq<(u64, u64)> {
    match row_of(rows, k, 0) {
        Some(i) => rows.update(i as int, (k, (rows[i as int].1 + 1) as u64)),
        None => rows.push((k, 1)),
    }
}

/// How often all keys came.
pub open spec fn sum(rows: Seq<(u64, u64)>) -> nat
    decreases rows.len(),
{
    if rows.len() == 0 {
        0
    } else {
        sum(rows.drop_last()) + rows.last().1 as nat
    }
}

/// No key has two rows, and every key came.
pub open spec fn counted_once(rows: Seq<(u64, u64)>) -> bool {
    &&& forall|i: int, j: int|
        0 <= i < j < rows.len() ==> (#[trigger] rows[i]).0 != (#[trigger] rows[j]).0
    &&& forall|i: int| 0 <= i < rows.len() ==> (#[trigger] rows[i]).1 > 0
}

proof fn lemma_row_of(rows: Seq<(u64, u64)>, k: u64, i: nat)
    ensures
        match row_of(rows, k, i) {
            Some(j) => i <= j < rows.len() && rows[j as int].0 == k,
            None => forall|j: int| i <= j < rows.len() ==> (#[trigger] rows[j]).0 != k,
        },
    decreases rows.len() - i,
{
    if i < rows.len() && rows[i as int].0 != k {
        lemma_row_of(rows, k, i + 1);
    }
}

proof fn lemma_sum_update(rows: Seq<(u64, u64)>, i: int, p: (u64, u64))
    requires
        0 <= i < rows.len(),
    ensures
        sum(rows.update(i, p)) == sum(rows) - rows[i].1 + p.1,
        rows[i].1 <= sum(rows),
    decreases rows.len(),
{
    if i == rows.len() - 1 {
        assert(rows.update(i, p).drop_last() =~= rows.drop_last());
    } else {
        lemma_sum_update(rows.drop_last(), i, p);
        assert(rows.update(i, p).drop_last() =~= rows.drop_last().update(i, p));
    }
}

/// Counting a key once more makes the sum one more.
pub proof fn law_every_call_counts_once(rows: Seq<(u64, u64)>, k: u64)
    requires
        counted_once(rows),
        sum(rows) < u64::MAX,
    ensures
        sum(bumped(rows, k)) == sum(rows) + 1,
        counted_once(bumped(rows, k)),
{
    lemma_row_of(rows, k, 0);
    match row_of(rows, k, 0) {
        Some(i) => {
            lemma_sum_update(rows, i as int, (k, (rows[i as int].1 + 1) as u64));
        },
        None => {
            assert(rows.push((k, 1)).drop_last() =~= rows);
        },
    }
}

/// There are no more keys than calls.
pub proof fn law_keys_do_not_outnumber_calls(rows: Seq<(u64, u64)>)
    requires
        counted_once(rows),
    ensures
        rows.len() <= sum(rows),
    decreases rows.len(),
{
    if rows.len() > 0 {
        law_keys_do_not_outnumber_calls(rows.drop_last());
    }
}

impl Tally {
    /// Nothing counted.
    pub fn new() -> (r: Tally)
        ensures
            r.rows@ == Seq::<(u64, u64)>::empty(),
    {
        Tally { rows: Vec::new() }
    }

    /// Counts a key.
    pub fn bump(&mut self, k: u64)
        requires
            counted_once(old(self).rows@),
            sum(old(self).rows@) < u64::MAX,
        ensures
            final(self).rows@ == bumped(old(self).rows@, k),
            counted_once(final(self).rows@),
            sum(final(self).rows@) == sum(old(self).rows@) + 1,
    {
        let ghost rows = self.rows@;
        proof {
            law_every_call_counts_once(rows, k);
        }
        let mut i: usize = 0;
        while i < self.rows.len()
            invariant
                i <= rows.len(),
                self.rows@ == rows,
                rows == old(self).rows@,
                sum(rows) < u64::MAX,
                row_of(rows, k, 0) == row_of(rows, k, i as nat),
                sum(bumped(rows, k)) == sum(rows) + 1,
                counted_once(bumped(rows, k)),
            decreases rows.len() - i,
        {
            if self.rows[i].0 == k {
                proof {
                    lemma_sum_update(rows, i as int, rows[i as int]);
                }
                let n: u64 = self.rows[i].1;
                self.rows.set(i, (k, n + 1));
                return ;
            }
            i += 1;
        }
        self.rows.push((k, 1));
    }
}

/// The first of the first `n` rows with the largest count.
pub open spec fn largest(rows: Seq<(u64, u64)>, n: nat) -> nat
    decreases n,
{
    if n <= 1 {
        0
    } else {
        let before = largest(rows, (n - 1) as nat);
        if rows[n - 1].1 > rows[before as int].1 {
            (n - 1) as nat
        } else {
            before
        }
    }
}

/// The sum of the `n` largest counts.
pub open spec fn top_sum(rows: Seq<(u64, u64)>, n: nat) -> nat
    decreases n,
{
    if n == 0 || rows.len() == 0 {
        0
    } else {
        let i = largest(rows, rows.len()) as int;
        rows[i].1 as nat + top_sum(rows.remove(i), (n - 1) as nat)
    }
}

proof fn lemma_sum_remove(rows: Seq<(u64, u64)>, i: int)
    requires
        0 <= i < rows.len(),
    ensures
        sum(rows) == rows[i].1 + sum(rows.remove(i)),
    decreases rows.len(),
{
    if i == rows.len() - 1 {
        assert(rows.remove(i) =~= rows.drop_last());
    } else {
        lemma_sum_remove(rows.drop_last(), i);
        assert(rows.remove(i).drop_last() =~= rows.drop_last().remove(i));
        assert(rows.remove(i).last() == rows.last());
    }
}

fn copy_rows(rows: &Vec<(u64, u64)>) -> (r: Vec<(u64, u64)>)
    ensures
        r@ == rows@,
{
    let mut r: Vec<(u64, u64)> = Vec::new();
    let mut i: usize = 0;
    while i < rows.len()
        invariant
            i <= rows@.len(),
            r@ =~= rows@.take(i as int),
        decreases rows@.len() - i,
    {
        r.push(rows[i]);
        i += 1;
    }
    r
}

fn largest_of(rows: &Vec<(u64, u64)>) -> (r: usize)
    requires
        rows@.len() > 0,
    ensures
        r == largest(rows@, rows@.len()),
        r < rows@.len(),
{
    let mut best: usize = 0;
    let mut i: usize = 1;
    while i < rows.len()
        invariant
            1 <= i <= rows@.len(),
            best == largest(rows@, i as nat),
            best < i,
        decreases rows@.len() - i,
    {
        if rows[i].1 > rows[best].1 {
            best = i;
        }
        i += 1;
    }
    best
}

/// How many calls the ten keys that came most often take.
fn top_ten(rows: &Vec<(u64, u64)>) -> (r: u64)
    requires
        sum(rows@) <= u64::MAX,
    ensures
        r == top_sum(rows@, 10),
        r <= sum(rows@),
{
    let mut left = copy_rows(rows);
    let mut total: u64 = 0;
    let mut n: usize = 10;
    while n > 0 && left.len() > 0
        invariant
            n <= 10,
            sum(rows@) <= u64::MAX,
            total + top_sum(left@, n as nat) == top_sum(rows@, 10),
            total + sum(left@) == sum(rows@),
        decreases n,
    {
        let i: usize = largest_of(&left);
        let c: u64 = left[i].1;
        proof {
            lemma_sum_remove(left@, i as int);
        }
        left.remove(i);
        total = total + c;
        n = n - 1;
    }
    total
}

/// The words of a call's arguments, one after the other.
fn arg_words(args: &Vec<Value>) -> (r: (Vec<u64>, usize))
    ensures
        r.0@ == list_words(vals(args@), args@.len()),
        r.1 == list_elems(vals(args@), args@.len()),
{
    let ghost vs = vals(args@);
    let mut out: Vec<u64> = Vec::new();
    let mut count: usize = 0;
    let mut i: usize = 0;
    while i < args.len()
        invariant
            i <= args@.len(),
            vs == vals(args@),
            out@ == list_words(vs, i as nat),
            count == list_elems(vs, i as nat),
        decreases args@.len() - i,
    {
        let more: usize = hash_value(&args[i], &mut out);
        assert(out@ =~= list_words(vs, (i + 1) as nat));
        proof {
            lemma_list_words_outnumber(vs, (i + 1) as nat);
        }
        let n: usize = out.len();
        assert(n >= list_elems(vs, (i + 1) as nat));
        count = count + more;
        i += 1;
    }
    (out, count)
}

/// The words of the `$`-names that reach a call.
fn context_words(specials: &Vec<(Name, Value)>) -> (r: Vec<u64>)
    ensures
        r@ == member_words(named_vals(specials@), specials@.len()),
{
    let ghost ms = named_vals(specials@);
    let mut out: Vec<u64> = Vec::new();
    let mut i: usize = 0;
    while i < specials.len()
        invariant
            i <= specials@.len(),
            ms == named_vals(specials@),
            out@ == member_words(ms, i as nat),
        decreases specials@.len() - i,
    {
        push_text(&specials[i].0, &mut out);
        let _ = hash_value(&specials[i].1, &mut out);
        assert(out@ =~= member_words(ms, (i + 1) as nat));
        i += 1;
    }
    out
}

/// The calls of functions, counted.
#[derive(Debug)]
pub struct Redundancy {
    pub total: u64,
    pub no_ctx: Tally,
    pub with_ctx: Tally,
    pub key_elems: u64,
}

/// The key of a call without its `$`-names.
pub open spec fn bare_key(id: u64, args: Seq<Val>, h: spec_fn(u64, Seq<u64>) -> u64) -> u64 {
    h(id, list_words(args, args.len()))
}

/// The key of a call with its `$`-names.
pub open spec fn full_key(
    id: u64,
    args: Seq<Val>,
    specials: Seq<(Seq<char>, Val)>,
    h: spec_fn(u64, Seq<u64>) -> u64,
) -> u64 {
    h(bare_key(id, args, h), member_words(specials, specials.len()))
}

/// What the counted calls come to.
#[derive(Debug, Clone, Copy, PartialEq, Eq, Structural)]
pub struct Summary {
    /// All calls.
    pub total: u64,
    /// Different keys without the `$`-names.
    pub distinct_args: usize,
    /// Different keys with the `$`-names.
    pub distinct_full: usize,
    /// The values in all keys.
    pub key_elems: u64,
    /// The calls under the ten keys without `$`-names that came most often.
    pub top_ten: u64,
}

impl Redundancy {
    /// Every call is under one key of each sort.
    pub open spec fn ok(&self) -> bool {
        &&& counted_once(self.no_ctx.rows@)
        &&& counted_once(self.with_ctx.rows@)
        &&& sum(self.no_ctx.rows@) == self.total
        &&& sum(self.with_ctx.rows@) == self.total
    }

    /// Nothing counted.
    pub fn new() -> (r: Redundancy)
        ensures
            r.ok(),
            r.total == 0,
            r.key_elems == 0,
            r.no_ctx.rows@.len() == 0,
            r.with_ctx.rows@.len() == 0,
    {
        Redundancy { total: 0, no_ctx: Tally::new(), with_ctx: Tally::new(), key_elems: 0 }
    }

    /// Counts a call: `id` tells what is called, `specials` are the `$`-names that reach the call.
    pub fn record<H: Fn(u64, &Vec<u64>) -> u64>(
        &mut self,
        id: u64,
        args: &Vec<Value>,
        specials: &Vec<(Name, Value)>,
        h: &H,
    ) -> (r: u64)
        requires
            old(self).ok(),
            old(self).total < u64::MAX,
            old(self).key_elems + list_elems(vals(args@), args@.len()) <= u64::MAX,
            hash_ok(*h),
        ensures
            final(self).ok(),
            final(self).total == old(self).total + 1,
            final(self).key_elems == old(self).key_elems + list_elems(vals(args@), args@.len()),
            final(self).no_ctx.rows@ == bumped(
                old(self).no_ctx.rows@,
                bare_key(id, vals(args@), hashing(*h)),
            ),
            r == full_key(id, vals(args@), named_vals(specials@), hashing(*h)),
            final(self).with_ctx.rows@ == bumped(old(self).with_ctx.rows@, r),
    {
        let (ws, elems) = arg_words(args);
        let bare: u64 = hash64(id, &ws, h);
        let full: u64 = hash64(bare, &context_words(specials), h);
        self.total = self.total + 1;
        self.key_elems = self.key_elems + elems as u64;
        self.no_ctx.bump(bare);
        self.with_ctx.bump(full);
        full
    }

    /// What the counted calls come to.
    pub fn summary(&self) -> (r: Summary)
        requires
            self.ok(),
        ensures
            r.total == self.total,
            r.distinct_args == self.no_ctx.rows@.len(),
            r.distinct_full == self.with_ctx.rows@.len(),
            r.key_elems == self.key_elems,
            r.top_ten == top_sum(self.no_ctx.rows@, 10),
            r.distinct_args <= r.total,
            r.distinct_full <= r.total,
            r.top_ten <= r.total,
    {
        proof {
            law_keys_do_not_outnumber_calls(self.no_ctx.rows@);
            law_keys_do_not_outnumber_calls(self.with_ctx.rows@);
        }
        Summary {
            total: self.total,
            distinct_args: self.no_ctx.rows.len(),
            distinct_full: self.with_ctx.rows.len(),
            key_elems: self.key_elems,
            top_ten: top_ten(&self.no_ctx.rows),
        }
    }
}

/// The calls of one module: what tells it, its name, how many calls, and the different keys among
/// them.
#[derive(Debug)]
pub struct ModStat {
    pub id: u64,
    pub name: Name,
    pub total: u64,
    pub keys: Vec<u64>,
}

/// The calls of one module, mathematically.
pub struct Stat {
    pub id: u64,
    pub name: Seq<char>,
    pub total: u64,
    pub keys: Seq<u64>,
}

impl View for ModStat {
    type V = Stat;

    open spec fn view(&self) -> Stat {
        Stat { id: self.id, name: self.name@, total: self.total, keys: self.keys@ }
    }
}

/// The calls of several modules, mathematically.
pub open spec fn stats(ms: Seq<ModStat>) -> Seq<Stat> {
    Seq::new(ms.len(), |i: int| ms[i]@)
}

/// The place of a module.
pub open spec fn stat_of(ms: Seq<Stat>, id: u64, i: nat) -> Option<nat>
    decreases ms.len() - i,
{
    if i >= ms.len() {
        None
    } else if ms[i as int].id == id {
        Some(i)
    } else {
        stat_of(ms, id, i + 1)
    }
}

/// A module after one more call.
pub open spec fn called(s: Stat, key: u64) -> Stat {
    Stat {
        total: (s.total + 1) as u64,
        keys: if s.keys.contains(key) {
            s.keys
        } else {
            s.keys.push(key)
        },
        ..s
    }
}

/// Several modules after one more call. A module keeps the name that it was first called by.
pub open spec fn with_call(ms: Seq<Stat>, id: u64, name: Seq<char>, key: u64) -> Seq<Stat> {
    match stat_of(ms, id, 0) {
        Some(i) => ms.update(i as int, called(ms[i as int], key)),
        None => ms.push(Stat { id, name, total: 1, keys: seq![key] }),
    }
}

/// The calls of modules, counted.
#[derive(Debug)]
pub struct ModRedundancy {
    pub calls: Redundancy,
    pub per_module: Vec<ModStat>,
}

/// How many calls of a module a memory would save.
pub open spec fn saved(s: Stat) -> int {
    s.total - s.keys.len()
}

/// Whether one module comes before another in a report: the one that a memory would save more calls
/// of, and of two alike the one with the smaller number.
pub open spec fn worse(a: Stat, b: Stat) -> bool {
    saved(a) > saved(b) || (saved(a) == saved(b) && a.id < b.id)
}

/// The worst of the first `n` modules.
pub open spec fn worst(ms: Seq<Stat>, n: nat) -> nat
    decreases n,
{
    if n <= 1 {
        0
    } else {
        let before = worst(ms, (n - 1) as nat);
        if worse(ms[n - 1], ms[before as int]) {
            (n - 1) as nat
        } else {
            before
        }
    }
}

/// The `n` worst modules, the worst first: the name, the calls and the different keys of each.
pub open spec fn culprits(ms: Seq<Stat>, n: nat) -> Seq<(Seq<char>, u64, nat)>
    decreases n,
{
    if n == 0 || ms.len() == 0 {
        Seq::empty()
    } else {
        let i = worst(ms, ms.len()) as int;
        seq![(ms[i].name, ms[i].total, ms[i].keys.len())] + culprits(ms.remove(i), (n - 1) as nat)
    }
}

/// The rows of a report, mathematically.
pub open spec fn culprit_rows(rs: Seq<(Name, u64, usize)>) -> Seq<(Seq<char>, u64, nat)> {
    Seq::new(rs.len(), |i: int| (rs[i].0@, rs[i].1, rs[i].2 as nat))
}

/// Every module was called at least as often as it has keys, and no more often than there were calls.
pub open spec fn stats_ok(ms: Seq<Stat>, total: u64) -> bool {
    forall|i: int|
        0 <= i < ms.len() ==> (#[trigger] ms[i]).keys.len() <= ms[i].total && ms[i].total <= total
}

fn holds(keys: &Vec<u64>, key: u64) -> (r: bool)
    ensures
        r == keys@.contains(key),
{
    let mut i: usize = 0;
    while i < keys.len()
        invariant
            i <= keys@.len(),
            forall|k: int| 0 <= k < i ==> keys@[k] != key,
        decreases keys@.len() - i,
    {
        if keys[i] == key {
            return true;
        }
        i += 1;
    }
    false
}

/// Whether a report is due: after every so many calls, never where that is nothing.
pub open spec fn due(total: u64, every: u64) -> bool {
    every != 0 && total % every == 0
}

impl ModRedundancy {
    /// Every call is counted with its module.
    pub open spec fn ok(&self) -> bool {
        self.calls.ok() && stats_ok(stats(self.per_module@), self.calls.total)
    }

    /// Nothing counted.
    pub fn new() -> (r: ModRedundancy)
        ensures
            r.ok(),
            r.calls.total == 0,
            r.calls.key_elems == 0,
            r.per_module@.len() == 0,
    {
        ModRedundancy { calls: Redundancy::new(), per_module: Vec::new() }
    }

    fn note(&mut self, id: u64, name: &Name, key: u64)
        requires
            stats_ok(stats(old(self).per_module@), (old(self).calls.total - 1) as u64),
            old(self).calls.total > 0,
        ensures
            final(self).calls == old(self).calls,
            stats(final(self).per_module@) == with_call(stats(old(self).per_module@), id, name@, key),
            stats_ok(stats(final(self).per_module@), final(self).calls.total),
    {
        let ghost ms = stats(self.per_module@);
        let mut i: usize = 0;
        while i < self.per_module.len()
            invariant
                i <= self.per_module@.len(),
                *self == *old(self),
                ms == stats(self.per_module@),
                stats_ok(ms, (self.calls.total - 1) as u64),
                self.calls.total > 0,
                stat_of(ms, id, 0) == stat_of(ms, id, i as nat),
            decreases self.per_module@.len() - i,
        {
            assert(ms[i as int] == self.per_module@[i as int]@);
            if self.per_module[i].id == id {
                let known = holds(&self.per_module[i].keys, key);
                let ghost was = self.per_module@;
                let total: u64 = self.per_module[i].total;
                self.per_module[i].total = total + 1;
                if !known {
                    self.per_module[i].keys.push(key);
                }
                proof {
                    let now = stats(self.per_module@);
                    assert(now =~= ms.update(i as int, called(ms[i as int], key)));
                }
                return ;
            }
            i += 1;
        }
        let mut keys: Vec<u64> = Vec::new();
        keys.push(key);
        assert(keys@ =~= seq![key]);
        self.per_module.push(ModStat { id, name: name.clone(), total: 1, keys });
        assert(stats(self.per_module@) =~= ms.push(Stat { id, name: name@, total: 1, keys: seq![key] }));
    }

    /// Counts a call of a module, and says whether a report is due: after every `every` calls, never
    /// where that is nothing.
    pub fn record<H: Fn(u64, &Vec<u64>) -> u64>(
        &mut self,
        id: u64,
        name: &Name,
        params: &Vec<Value>,
        specials: &Vec<(Name, Value)>,
        every: u64,
        h: &H,
    ) -> (r: bool)
        requires
            old(self).ok(),
            old(self).calls.total < u64::MAX,
            old(self).calls.key_elems + list_elems(vals(params@), params@.len()) <= u64::MAX,
            hash_ok(*h),
        ensures
            final(self).ok(),
            final(self).calls.total == old(self).calls.total + 1,
            final(self).calls.key_elems == old(self).calls.key_elems + list_elems(
                vals(params@),
                params@.len(),
            ),
            final(self).calls.no_ctx.rows@ == bumped(
                old(self).calls.no_ctx.rows@,
                bare_key(id, vals(params@), hashing(*h)),
            ),
            final(self).calls.with_ctx.rows@ == bumped(
                old(self).calls.with_ctx.rows@,
                full_key(id, vals(params@), named_vals(specials@), hashing(*h)),
            ),
            stats(final(self).per_module@) == with_call(
                stats(old(self).per_module@),
                id,
                name@,
                full_key(id, vals(params@), named_vals(specials@), hashing(*h)),
            ),
            r == due(final(self).calls.total, every),
    {
        let key: u64 = self.calls.record(id, params, specials, h);
        self.note(id, name, key);
        every != 0 && self.calls.total % every == 0
    }

    /// The fifteen modules that a memory would save most calls of.
    pub fn worst_modules(&self) -> (r: Vec<(Name, u64, usize)>)
        requires
            self.ok(),
        ensures
            culprit_rows(r@) == culprits(stats(self.per_module@), 15),
    {
        let ghost all = stats(self.per_module@);
        let mut left: Vec<&ModStat> = Vec::new();
        let mut k: usize = 0;
        while k < self.per_module.len()
            invariant
                k <= self.per_module@.len(),
                all == stats(self.per_module@),
                left@.len() == k,
                forall|j: int| 0 <= j < k ==> (#[trigger] left@[j])@ == all[j],
            decreases self.per_module@.len() - k,
        {
            left.push(&self.per_module[k]);
            assert(left@[k as int]@ == all[k as int]);
            k += 1;
        }
        assert(listed(left@) =~= all);
        let mut out: Vec<(Name, u64, usize)> = Vec::new();
        let mut n: usize = 15;
        assert(culprit_rows(out@) + culprits(listed(left@), 15) =~= culprits(all, 15));
        while n > 0 && left.len() > 0
            invariant
                n <= 15,
                stats_ok(listed(left@), self.calls.total),
                culprit_rows(out@) + culprits(listed(left@), n as nat) == culprits(all, 15),
            decreases n,
        {
            let ghost ms = listed(left@);
            let i: usize = worst_of(&left, Ghost(self.calls.total));
            let ghost was = culprit_rows(out@);
            let one = left[i];
            assert(ms[i as int] == one@);
            out.push((one.name.clone(), one.total, one.keys.len()));
            left.remove(i);
            proof {
                assert(listed(left@) =~= ms.remove(i as int));
                assert(culprit_rows(out@) =~= was + seq![(one.name@, one.total, one.keys@.len())]);
                assert(culprit_rows(out@) + culprits(listed(left@), (n - 1) as nat) =~= was
                    + culprits(ms, n as nat));
                assert forall|j: int| 0 <= j < listed(left@).len() implies (
                #[trigger] listed(left@)[j]).keys.len() <= listed(left@)[j].total && listed(
                    left@,
                )[j].total <= self.calls.total by {
                    assert(listed(left@)[j] == ms[if j < i {
                        j
                    } else {
                        j + 1
                    }]);
                }
            }
            n = n - 1;
        }
        assert(culprit_rows(out@) =~= culprits(all, 15));
        out
    }
}

/// Some modules by reference, mathematically.
spec fn listed(ms: Seq<&ModStat>) -> Seq<Stat> {
    Seq::new(ms.len(), |i: int| ms[i]@)
}

fn worst_of(ms: &Vec<&ModStat>, Ghost(total): Ghost<u64>) -> (r: usize)
    requires
        ms@.len() > 0,
        stats_ok(listed(ms@), total),
    ensures
        r == worst(listed(ms@), ms@.len()),
        r < ms@.len(),
{
    let ghost all = listed(ms@);
    let mut best: usize = 0;
    let mut i: usize = 1;
    while i < ms.len()
        invariant
            1 <= i <= ms@.len(),
            all == listed(ms@),
            stats_ok(all, total),
            best == worst(all, i as nat),
            best < i,
        decreases ms@.len() - i,
    {
        assert(all[i as int] == ms@[i as int]@);
        assert(all[best as int] == ms@[best as int]@);
        let a: u64 = ms[i].total - ms[i].keys.len() as u64;
        let b: u64 = ms[best].total - ms[best].keys.len() as u64;
        if a > b || (a == b && ms[i].id < ms[best].id) {
            best = i;
        }
        i += 1;
    }
    best
}

/// How often a key came.
pub open spec fn count_of(rows: Seq<(u64, u64)>, k: u64) -> int {
    match row_of(rows, k, 0) {
        Some(i) => rows[i as int].1 as int,
        None => 0,
    }
}

/// A key that comes once more is counted once more, and no other key is.
pub proof fn law_counting(rows: Seq<(u64, u64)>, k: u64, other: u64)
    requires
        counted_once(rows),
        count_of(rows, k) < u64::MAX,
    ensures
        count_of(bumped(rows, k), k) == count_of(rows, k) + 1,
        other != k ==> count_of(bumped(rows, k), other) == count_of(rows, other),
        counted_once(bumped(rows, k)),
{
    lemma_found_row(rows, k, 0);
    lemma_found_row(rows, other, 0);
    let after = bumped(rows, k);
    lemma_found_row(after, k, 0);
    lemma_found_row(after, other, 0);
    match row_of(rows, k, 0) {
        Some(i) => {
            assert(after[i as int].0 == k);
            assert forall|j: int| 0 <= j < rows.len() implies (#[trigger] after[j]).0 == rows[j].0 by {}
            match row_of(after, k, 0) {
                Some(j) => {
                    if j < i {
                        assert(after[j as int].0 == rows[j as int].0);
                    } else if i < j {
                        assert(after[i as int].0 != k);
                    }
                },
                None => {
                    assert(after[i as int].0 != k);
                },
            }
            match (row_of(rows, other, 0), row_of(after, other, 0)) {
                (Some(a), Some(b)) => {
                    if a < b {
                        assert(after[a as int].0 != other);
                    } else if b < a {
                        assert(rows[b as int].0 != other);
                        assert(after[b as int].0 == rows[b as int].0);
                    }
                },
                (Some(a), None) => {
                    assert(after[a as int].0 != other);
                },
                (None, Some(b)) => {
                    assert(rows[b as int].0 != other);
                    assert(after[b as int].0 == rows[b as int].0);
                },
                _ => {},
            }
        },
        None => {
            assert(after[rows.len() as int] == (k, 1u64));
            assert forall|j: int| 0 <= j < rows.len() implies (#[trigger] after[j]) == rows[j] by {}
            match row_of(after, k, 0) {
                Some(j) => {
                    if j < rows.len() {
                        assert(rows[j as int].0 != k);
                    }
                },
                None => {
                    assert(after[rows.len() as int].0 != k);
                },
            }
            match (row_of(rows, other, 0), row_of(after, other, 0)) {
                (Some(a), Some(b)) => {
                    if a < b {
                        assert(after[a as int].0 != other);
                    } else if b < a {
                        assert(rows[b as int].0 != other);
                    }
                },
                (Some(a), None) => {
                    assert(after[a as int].0 != other);
                },
                (None, Some(b)) => {
                    if b < rows.len() {
                        assert(rows[b as int].0 != other);
                    }
                },
                _ => {},
            }
        },
    }
}

proof fn lemma_found_row(rows: Seq<(u64, u64)>, k: u64, i: nat)
    ensures
        match row_of(rows, k, i) {
            Some(j) => i <= j < rows.len() && rows[j as int].0 == k && forall|x: int|
                i <= x < j ==> (#[trigger] rows[x]).0 != k,
            None => forall|x: int| i <= x < rows.len() ==> (#[trigger] rows[x]).0 != k,
        },
    decreases rows.len() - i,
{
    if i < rows.len() && rows[i as int].0 != k {
        lemma_found_row(rows, k, i + 1);
    }
}

/// The row that is found to be the largest is so, and the sum of the largest counts begins with it.
pub proof fn law_largest(rows: Seq<(u64, u64)>, n: nat, i: int)
    requires
        0 <= i < n <= rows.len(),
    ensures
        largest(rows, n) < n,
        rows[i].1 <= rows[largest(rows, n) as int].1,
        top_sum(rows, 1) == rows[largest(rows, rows.len()) as int].1,
    decreases n,
{
    if n > 1 {
        if i < n - 1 {
            law_largest(rows, (n - 1) as nat, i);
        } else {
            law_largest(rows, (n - 1) as nat, 0);
        }
    }
    let x = largest(rows, rows.len()) as int;
    assert(top_sum(rows.remove(x), 0) == 0);
}

/// The module that is found to be the worst is so: a memory would save no more calls of any other one, and of those of
/// which it would save as many none has a smaller number. A report begins with it.
pub proof fn law_worst(ms: Seq<Stat>, n: nat, i: int)
    requires
        0 <= i < n <= ms.len(),
    ensures
        worst(ms, n) < n,
        ({
            let w = ms[worst(ms, n) as int];
            let s = ms[i];
            &&& s.total - s.keys.len() <= w.total - w.keys.len()
            &&& s.total - s.keys.len() == w.total - w.keys.len() ==> s.id >= w.id
        }),
        ({
            let w = ms[worst(ms, ms.len()) as int];
            culprits(ms, 1) == seq![(w.name, w.total, w.keys.len())]
        }),
    decreases n,
{
    if n > 1 {
        if i < n - 1 {
            law_worst(ms, (n - 1) as nat, i);
        } else {
            law_worst(ms, (n - 1) as nat, 0);
        }
    }
    let x = worst(ms, ms.len()) as int;
    assert(culprits(ms.remove(x), 0) =~= Seq::empty());
    assert(culprits(ms, 1) =~= seq![(ms[x].name, ms[x].total, ms[x].keys.len())]);
}

/// A module is counted once more with each call, and has one more key exactly where the call's key is new to it. A
/// report is due after each so many calls.
pub proof fn law_module_calls(s: Stat, key: u64, total: u64, every: u64)
    requires
        s.total < u64::MAX,
    ensures
        called(s, key).total == s.total + 1,
        called(s, key).keys.contains(key),
        s.keys.contains(key) ==> called(s, key).keys == s.keys,
        !s.keys.contains(key) ==> called(s, key).keys.len() == s.keys.len() + 1,
        called(s, key).name == s.name && called(s, key).id == s.id,
        every > 0 ==> (due(total, every) <==> total as int % every as int == 0),
        every == 0 ==> !due(total, every),
{
    if !s.keys.contains(key) {
        assert(s.keys.push(key)[s.keys.len() as int] == key);
    }
}

/// Values of different kinds have different words, and so have different numbers, truth values and vectors of numbers.
pub proof fn law_words_tell_apart(a: Val, b: Val)
    requires
        words(a) == words(b),
    ensures
        a is Undef <==> b is Undef,
        a is Bool <==> b is Bool,
        a is Num <==> b is Num,
        a is Str <==> b is Str,
        a is NumList <==> b is NumList,
        a is List <==> b is List,
        a is Range <==> b is Range,
        a is Function <==> b is Function,
        a is Object <==> b is Object,
        a is Num || a is Bool || a is NumList || a is Range ==> a == b,
{
    lemma_kind_word(a);
    lemma_kind_word(b);
    let x = words(a);
    let y = words(b);
    match (a, b) {
        (Val::Num(p), Val::Num(q)) => {
            assert(x[1] == p && y[1] == q);
        },
        (Val::Bool(p), Val::Bool(q)) => {
            assert(x[1] == y[1]);
        },
        (Val::NumList(p), Val::NumList(q)) => {
            assert(p =~= x.skip(1));
            assert(q =~= y.skip(1));
        },
        (Val::Range { start, step, end }, Val::Range { start: start2, step: step2, end: end2 }) => {
            assert(x[1] == y[1] && x[2] == y[2] && x[3] == y[3]);
        },
        _ => {},
    }
}

proof fn lemma_kind_word(v: Val)
    ensures
        words(v).len() > 0,
        words(v)[0] == match v {
            Val::Undef => 0u64,
            Val::Bool(_) => 1u64,
            Val::Num(_) => 2u64,
            Val::Str(_) => 3u64,
            Val::NumList(_) => 4u64,
            Val::List(_) => 5u64,
            Val::Range { .. } => 6u64,
            Val::Function { .. } => 7u64,
            Val::Object(_) => 8u64,
        },
{
}

} // verus!

//! Small building blocks on text: comparison, digits, prefixes.

use vstd::prelude::*;

verus! {

/// Three-way outcome of a comparison.
#[derive(Debug, Clone, Copy, PartialEq, Eq, Structural)]
pub enum Rank {
    Less,
    Equal,
    Greater,
}

/// Whether two texts hold the same characters.
pub fn same(a: &str, b: &str) -> (r: bool)
    ensures
        r == (a@ == b@),
{
    a.to_owned() == b.to_owned()
}

/// The characters of a text, in order.
pub fn chars_of(s: &str) -> (r: Vec<char>)
    ensures
        r@ == s@,
{
    let mut out: Vec<char> = Vec::new();
    for c in it: s.chars()
        invariant
            it.seq() == s@,
            out@ == it.seq().take(it.index() as int),
    {
        out.push(c);
    }
    assert(s@.take(s@.len() as int) =~= s@);
    out
}

/// The text made of the given characters.
pub fn text_of(cs: &Vec<char>) -> (r: String)
    ensures
        r@ == cs@,
{
    let mut out = String::new();
    let mut i: usize = 0;
    while i < cs.len()
        invariant
            i <= cs.len(),
            out@ == cs@.take(i as int),
        decreases cs.len() - i,
    {
        push_char(&mut out, cs[i]);
        assert(cs@.take(i as int + 1) =~= cs@.take(i as int).push(cs@[i as int]));
        i += 1;
    }
    assert(cs@.take(cs@.len() as int) =~= cs@);
    out
}

/// `String::push` appends one character at the end.
#[verifier::external_body]
fn push_char(s: &mut String, c: char)
    ensures
        final(s)@ == old(s)@.push(c),
{
    s.push(c);
}


/// Whether one text comes before another: by their first differing code points, a proper prefix
/// first.
pub open spec fn text_lt(a: Seq<char>, b: Seq<char>) -> bool
    decreases a.len(),
{
    if b.len() == 0 {
        false
    } else if a.len() == 0 {
        true
    } else if a[0] != b[0] {
        (a[0] as int) < (b[0] as int)
    } else {
        text_lt(a.drop_first(), b.drop_first())
    }
}

/// The place of one text before, at or after another.
pub open spec fn text_rank_of(a: Seq<char>, b: Seq<char>) -> Rank {
    if text_lt(a, b) {
        Rank::Less
    } else if a == b {
        Rank::Equal
    } else {
        Rank::Greater
    }
}

/// The order of texts is strict and total.
pub proof fn law_text_order(a: Seq<char>, b: Seq<char>)
    ensures
        text_lt(a, b) ==> !text_lt(b, a) && a != b,
        text_lt(a, b) || text_lt(b, a) || a == b,
    decreases a.len(),
{
    if a.len() == 0 || b.len() == 0 {
        assert(a.len() == 0 && b.len() == 0 ==> a =~= b);
    } else if a[0] == b[0] {
        law_text_order(a.drop_first(), b.drop_first());
        if a.drop_first() == b.drop_first() {
            assert(a =~= seq![a[0]] + a.drop_first());
            assert(b =~= seq![b[0]] + b.drop_first());
        }
    }
}

/// The order of texts is transitive.
pub proof fn law_text_order_transitive(a: Seq<char>, b: Seq<char>, c: Seq<char>)
    requires
        text_lt(a, b),
        text_lt(b, c),
    ensures
        text_lt(a, c),
    decreases a.len(),
{
    if a.len() > 0 && b.len() > 0 && c.len() > 0 && a[0] == b[0] && b[0] == c[0] {
        law_text_order_transitive(a.drop_first(), b.drop_first(), c.drop_first());
    }
}

/// Compares two texts.
pub fn text_rank(a: &str, b: &str) -> (r: Rank)
    ensures
        r == text_rank_of(a@, b@),
{
    let x: Vec<char> = chars_of(a);
    let y: Vec<char> = chars_of(b);
    let mut i: usize = 0;
    assert(a@.skip(0) =~= a@);
    assert(b@.skip(0) =~= b@);
    while i < x.len() && i < y.len()
        invariant
            x@ == a@,
            y@ == b@,
            i <= x.len(),
            i <= y.len(),
            text_lt(a@, b@) == text_lt(a@.skip(i as int), b@.skip(i as int)),
            a@.take(i as int) == b@.take(i as int),
        decreases x.len() - i,
    {
        let p: char = x[i];
        let q: char = y[i];
        let ghost ta = a@.skip(i as int);
        let ghost tb = b@.skip(i as int);
        assert(ta[0] == p && tb[0] == q);
        assert(ta.drop_first() =~= a@.skip(i as int + 1));
        assert(tb.drop_first() =~= b@.skip(i as int + 1));
        if p != q {
            assert(a@[i as int] != b@[i as int]);
            return if p < q {
                Rank::Less
            } else {
                Rank::Greater
            };
        }
        assert(a@.take(i as int + 1) =~= a@.take(i as int).push(p));
        assert(b@.take(i as int + 1) =~= b@.take(i as int).push(q));
        i += 1;
    }
    if x.len() == y.len() {
        assert(a@.take(i as int) =~= a@);
        assert(b@.take(i as int) =~= b@);
        proof {
            law_text_order(a@, b@);
        }
        Rank::Equal
    } else if x.len() < y.len() {
        Rank::Less
    } else {
        Rank::Greater
    }
}

/// The digit character for a value below sixteen.
pub open spec fn digit(d: int) -> char {
    if d < 10 {
        (48 + d) as char
    } else {
        (87 + d) as char
    }
}

/// The digits of a number in a base.
pub open spec fn digits(n: nat, base: nat) -> Seq<char>
    decreases n,
    when base > 1
{
    if n < base {
        seq![digit(n as int)]
    } else {
        proof {
            assert(n / base < n) by (nonlinear_arith)
                requires
                    base > 1,
                    n >= base,
            ;
        }
        digits(n / base, base).push(digit((n % base) as int))
    }
}

/// The decimal digits of a number.
pub open spec fn decimal(n: nat) -> Seq<char> {
    digits(n, 10)
}

/// The hexadecimal digits of a number.
pub open spec fn hexadecimal(n: nat) -> Seq<char> {
    digits(n, 16)
}

fn digit_char(d: u64) -> (r: char)
    requires
        d < 16,
    ensures
        r == digit(d as int),
{
    if d < 10 {
        (48u8 + d as u8) as char
    } else {
        (87u8 + d as u8) as char
    }
}

/// The digits of a number in a base.
fn digits_text(n: u64, base: u64) -> (r: String)
    requires
        2 <= base <= 16,
    ensures
        r@ == digits(n as nat, base as nat),
    decreases n,
{
    if n < base {
        let mut out = String::new();
        push_char(&mut out, digit_char(n));
        assert(out@ =~= seq![digit(n as int)]);
        out
    } else {
        assert(n / base < n) by (nonlinear_arith)
            requires
                base >= 2,
                n >= base,
        ;
        let mut out = digits_text(n / base, base);
        push_char(&mut out, digit_char(n % base));
        out
    }
}

/// A number in decimal.
pub fn dec(n: u64) -> (r: String)
    ensures
        r@ == decimal(n as nat),
{
    digits_text(n, 10)
}

/// A number in hexadecimal.
pub fn hex(n: u64) -> (r: String)
    ensures
        r@ == hexadecimal(n as nat),
{
    digits_text(n, 16)
}

/// Two texts one after another.
pub fn cat(a: &str, b: &str) -> (r: String)
    ensures
        r@ == a@ + b@,
{
    let mut out: String = a.to_owned();
    out.append(b);
    out
}

/// Three texts one after another.
pub fn cat3(a: &str, b: &str, c: &str) -> (r: String)
    ensures
        r@ == a@ + b@ + c@,
{
    let mut out: String = a.to_owned();
    out.append(b);
    out.append(c);
    out
}

/// Five texts one after another.
pub fn cat5(a: &str, b: &str, c: &str, d: &str, e: &str) -> (r: String)
    ensures
        r@ == a@ + b@ + c@ + d@ + e@,
{
    let mut out: String = a.to_owned();
    out.append(b);
    out.append(c);
    out.append(d);
    out.append(e);
    out
}

/// A one-character text.
pub fn char_text(c: char) -> (r: String)
    ensures
        r@ == seq![c],
{
    let mut out = String::new();
    push_char(&mut out, c);
    assert(out@ =~= seq![c]);
    out
}

/// The value of a digit.
pub open spec fn digit_value(c: char) -> int {
    if c <= '9' {
        c as int - '0' as int
    } else {
        c as int - 'a' as int + 10
    }
}

/// The number that digits in a base make.
pub open spec fn number_read(t: Seq<char>, base: nat) -> int
    decreases t.len(),
{
    if t.len() == 0 {
        0
    } else {
        number_read(t.drop_last(), base) * base + digit_value(t.last())
    }
}

/// The digits of a number read back as the number. They are digits and small letters, and the first of
/// several is not zero.
pub proof fn law_digits_read_back(n: nat, base: nat)
    requires
        2 <= base <= 16,
    ensures
        number_read(digits(n, base), base) == n,
        digits(n, base).len() > 0,
        forall|i: int|
            0 <= i < digits(n, base).len() ==> '0' <= (#[trigger] digits(n, base)[i]) <= '9' || 'a' <= digits(
                n,
                base,
            )[i] <= 'f',
        base <= 10 ==> forall|i: int|
            0 <= i < digits(n, base).len() ==> '0' <= (#[trigger] digits(n, base)[i]) <= '9',
        n > 0 ==> digits(n, base)[0] != '0',
    decreases n,
{
    let t = digits(n, base);
    if n < base {
        assert(t.drop_last() =~= Seq::<char>::empty());
        assert(number_read(t.drop_last(), base) == 0);
        assert(0 * base == 0);
        assert(t.last() == digit(n as int));
    } else {
        assert(0 < n / base < n) by (nonlinear_arith)
            requires
                base > 1,
                n >= base,
        ;
        law_digits_read_back(n / base, base);
        assert(t.drop_last() =~= digits(n / base, base));
        assert(t.last() == digit((n % base) as int));
        assert(0 <= n % base < base) by (nonlinear_arith)
            requires
                base > 1,
        ;
        assert((n / base) * base + n % base == n) by (nonlinear_arith)
            requires
                base > 1,
        ;
        assert(t[0] == digits(n / base, base)[0]);
        assert forall|i: int| 0 <= i < t.len() implies '0' <= (#[trigger] t[i]) <= '9' || 'a' <= t[i]
            <= 'f' by {
            if i < t.len() - 1 {
                assert(t[i] == digits(n / base, base)[i]);
            }
        }
        assert forall|i: int| base <= 10 && 0 <= i < t.len() implies '0' <= (#[trigger] t[i]) <= '9' by {
            if i < t.len() - 1 {
                assert(t[i] == digits(n / base, base)[i]);
            }
        }
    }
}

/// The rank of one text beside another: equal exactly where they are the same, less exactly where it comes first in the
/// order of texts, and turned where the texts are turned.
pub proof fn law_text_ranks(a: Seq<char>, b: Seq<char>)
    ensures
        text_rank_of(a, b) is Equal <==> a == b,
        text_rank_of(a, b) is Less <==> text_lt(a, b),
        text_rank_of(a, b) is Greater <==> text_lt(b, a),
        text_rank_of(a, b) is Less <==> text_rank_of(b, a) is Greater,
{
    law_text_order(a, b);
    law_text_order(b, a);
}

/// Texts are ordered as in a dictionary: what they begin with alike does not count, after that the first letter decides, and
/// a text comes before every longer one that begins with it.
pub proof fn law_dictionary_order(p: Seq<char>, a: Seq<char>, b: Seq<char>)
    ensures
        text_lt(p + a, p + b) <==> text_lt(a, b),
        a.len() > 0 && b.len() > 0 && a[0] != b[0] ==> (text_lt(a, b) <==> a[0] < b[0]),
        b.len() > 0 ==> text_lt(p, p + b),
        !text_lt(p + b, p),
    decreases p.len(),
{
    if p.len() == 0 {
        assert(p + a =~= a);
        assert(p + b =~= b);
    } else {
        let q = p.drop_first();
        law_dictionary_order(q, a, b);
        assert((p + a).drop_first() =~= q + a);
        assert((p + b).drop_first() =~= q + b);
    }
}

}

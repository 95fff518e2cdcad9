//! Random numbers: the Mersenne Twister, seeded from one word, and numbers between two bounds.

use vstd::prelude::*;

use crate::num::{ask, less, num_lt, unit, unit_ok, FloatOp, ONE};

verus! {

/// The words of the state.
pub const STATE: usize = 624;

/// How far ahead a word is mixed in.
pub const AHEAD: usize = 397;

pub const MATRIX_A: u32 = 0x9908_b0df;

pub const UPPER: u32 = 0x8000_0000;

pub const LOWER: u32 = 0x7fff_ffff;

/// The seed where none is given.
pub const DEFAULT_SEED: u32 = 0;

/// Two to the 32nd.
pub const WORD: u64 = 0x41f0_0000_0000_0000;

/// Two to the 64th.
pub const TWO_WORDS: u64 = 0x43f0_0000_0000_0000;

/// The greatest number below one.
pub const BELOW_ONE: u64 = 0x3fef_ffff_ffff_ffff;

/// The word after `prev` in the seeding, at the place `i`.
pub open spec fn seeded(prev: u32, i: nat) -> u32 {
    1_812_433_253u32.wrapping_mul(prev ^ (prev >> 30)).wrapping_add(i as u32)
}

/// The twist of two neighbouring words.
pub open spec fn twist(a: u32, b: u32) -> u32 {
    let y = (a & UPPER) | (b & LOWER);
    (y >> 1) ^ (if y & 1 != 0 {
        MATRIX_A
    } else {
        0
    })
}

/// The `k`-th word of the sequence of a seed: the first 624 are seeded, each later one is made of the
/// words 624, 623 and 227 places before it.
pub open spec fn word(seed: u32, k: nat) -> u32
    decreases k,
{
    if k == 0 {
        seed
    } else if k < 624 {
        seeded(word(seed, (k - 1) as nat), k)
    } else {
        word(seed, (k - 227) as nat) ^ twist(
            word(seed, (k - 624) as nat),
            word(seed, (k - 623) as nat),
        )
    }
}

/// A word, tempered.
pub open spec fn tempered(y: u32) -> u32 {
    let a = y ^ (y >> 11);
    let b = a ^ ((a << 7) & 0x9d2c_5680);
    let c = b ^ ((b << 15) & 0xefc6_0000);
    c ^ (c >> 18)
}

/// The `n`-th draw from a seed.
pub open spec fn draw(seed: u32, n: nat) -> u32 {
    tempered(word(seed, n + 624))
}

/// A Mersenne Twister.
pub struct Mt19937 {
    mt: [u32; 624],
    mti: usize,
    seed: Ghost<u32>,
    drawn: Ghost<nat>,
}

impl Mt19937 {
    /// The seed that it was made with.
    pub closed spec fn seed(&self) -> u32 {
        self.seed@
    }

    /// How many words were drawn from it.
    pub closed spec fn drawn(&self) -> nat {
        self.drawn@
    }

    /// The place in the sequence of the first word that it holds.
    spec fn base(&self) -> int {
        624 + self.drawn@ - self.mti
    }

    /// It holds 624 words of its sequence, the next word to draw among them or next after them.
    pub closed spec fn ok(&self) -> bool {
        &&& self.mti <= 624
        &&& forall|j: int|
            0 <= j < 624 ==> #[trigger] self.mt@[j] == word(self.seed@, (self.base() + j) as nat)
    }

    /// A twister with a seed.
    pub fn new(seed: u32) -> (r: Mt19937)
        ensures
            r.ok(),
            r.seed() == seed,
            r.drawn() == 0,
    {
        let mut mt: [u32; 624] = [0u32; 624];
        mt[0] = seed;
        let mut i: usize = 1;
        while i < STATE
            invariant
                1 <= i <= STATE,
                forall|j: int| 0 <= j < i ==> #[trigger] mt@[j] == word(seed, j as nat),
            decreases STATE - i,
        {
            let prev: u32 = mt[i - 1];
            assert(prev == word(seed, (i - 1) as nat));
            mt[i] = 1_812_433_253u32.wrapping_mul(prev ^ (prev >> 30)).wrapping_add(i as u32);
            assert(mt@[i as int] == word(seed, i as nat));
            i = i + 1;
        }
        Mt19937 { mt, mti: STATE, seed: Ghost(seed), drawn: Ghost(0) }
    }

    /// Makes the next 624 words.
    fn regenerate(&mut self)
        requires
            old(self).ok(),
            old(self).mti == 624,
        ensures
            final(self).ok(),
            final(self).mti == 0,
            final(self).seed() == old(self).seed(),
            final(self).drawn() == old(self).drawn(),
    {
        let ghost base: nat = self.drawn@;
        let ghost seed = self.seed@;
        let mut i: usize = 0;
        while i < STATE
            invariant
                i <= STATE,
                seed == self.seed@,
                base == self.drawn@,
                self.seed == old(self).seed,
                self.drawn == old(self).drawn,
                forall|j: int| 0 <= j < i ==> #[trigger] self.mt@[j] == word(seed, (base + 624 + j) as nat),
                forall|j: int| i <= j < 624 ==> #[trigger] self.mt@[j] == word(seed, (base + j) as nat),
            decreases STATE - i,
        {
            let next: usize = (i + 1) % STATE;
            let far: usize = (i + AHEAD) % STATE;
            assert(self.mt@[next as int] == word(seed, (base + i + 1) as nat));
            assert(self.mt@[far as int] == word(seed, (base + i + 397) as nat));
            let y: u32 = (self.mt[i] & UPPER) | (self.mt[next] & LOWER);
            let mixed: u32 = if y & 1 != 0 {
                MATRIX_A
            } else {
                0
            };
            let x: u32 = self.mt[far] ^ (y >> 1) ^ mixed;
            assert(x == word(seed, (base + 624 + i) as nat)) by {
                let k = (base + 624 + i) as nat;
                let w = word(seed, (k - 227) as nat);
                let h = y >> 1;
                assert(w ^ h ^ mixed == w ^ (h ^ mixed)) by (bit_vector);
            }
            self.mt[i] = x;
            i = i + 1;
        }
        self.mti = 0;
    }

    /// Draws a word.
    pub fn next_u32(&mut self) -> (r: u32)
        requires
            old(self).ok(),
        ensures
            r == draw(old(self).seed(), old(self).drawn()),
            final(self).ok(),
            final(self).seed() == old(self).seed(),
            final(self).drawn() == old(self).drawn() + 1,
    {
        if self.mti >= STATE {
            self.regenerate();
        }
        let y: u32 = self.mt[self.mti];
        assert(y == word(self.seed@, (624 + self.drawn@) as nat));
        self.mti = self.mti + 1;
        proof {
            self.drawn@ = self.drawn@ + 1;
        }
        let a: u32 = y ^ (y >> 11);
        let b: u32 = a ^ ((a << 7) & 0x9d2c_5680);
        let c: u32 = b ^ ((b << 15) & 0xefc6_0000);
        c ^ (c >> 18)
    }

    /// Draws a number from 0 up to below 1: two words, the second the higher.
    pub fn canonical<F: Fn(FloatOp, u64, u64) -> u64>(&mut self, fpu: &F) -> (r: u64)
        requires
            old(self).ok(),
            unit_ok(*fpu),
        ensures
            r == fraction(old(self).seed(), old(self).drawn(), unit(*fpu)),
            num_lt(r, ONE),
            final(self).ok(),
            final(self).seed() == old(self).seed(),
            final(self).drawn() == old(self).drawn() + 2,
    {
        let low: u32 = self.next_u32();
        let high: u32 = self.next_u32();
        let e0: u64 = ask(fpu, FloatOp::FromInt, low as u64, 0);
        let e1: u64 = ask(fpu, FloatOp::FromInt, high as u64, 0);
        let sum: u64 = ask(fpu, FloatOp::Add, e0, ask(fpu, FloatOp::Mul, e1, WORD));
        let part: u64 = ask(fpu, FloatOp::Div, sum, TWO_WORDS);
        proof {
            law_fractions_are_below_one(old(self).seed(), old(self).drawn(), unit(*fpu));
        }
        if less(part, ONE) {
            part
        } else {
            BELOW_ONE
        }
    }
}

/// The number from 0 up to below 1 that is made of the `n`-th draw and the one after it. Where it
/// would be rounded up to 1 it is the greatest number below.
pub open spec fn fraction(seed: u32, n: nat, f: spec_fn(FloatOp, u64, u64) -> u64) -> u64 {
    let e0 = f(FloatOp::FromInt, draw(seed, n) as u64, 0);
    let e1 = f(FloatOp::FromInt, draw(seed, n + 1) as u64, 0);
    let part = f(FloatOp::Div, f(FloatOp::Add, e0, f(FloatOp::Mul, e1, WORD)), TWO_WORDS);
    if num_lt(part, ONE) {
        part
    } else {
        BELOW_ONE
    }
}

/// A fraction is below 1, however the words it is made of are rounded.
pub proof fn law_fractions_are_below_one(
    seed: u32,
    n: nat,
    f: spec_fn(FloatOp, u64, u64) -> u64,
)
    ensures
        num_lt(fraction(seed, n, f), ONE),
{
}

/// The seed to draw from.
pub open spec fn seed_or(seed: Option<u32>) -> u32 {
    match seed {
        Some(s) => s,
        None => DEFAULT_SEED,
    }
}

/// The `i`-th of the random numbers between two bounds.
pub open spec fn rand_at(
    min: u64,
    max: u64,
    seed: u32,
    i: nat,
    f: spec_fn(FloatOp, u64, u64) -> u64,
) -> u64 {
    let span = f(FloatOp::Sub, max, min);
    f(FloatOp::Add, min, f(FloatOp::Mul, span, fraction(seed, 2 * i, f)))
}

/// Random numbers between two bounds. They depend on the seed alone; without one they are those of
/// a fixed seed.
pub fn rands<F: Fn(FloatOp, u64, u64) -> u64>(
    min: u64,
    max: u64,
    count: usize,
    seed: Option<u32>,
    fpu: &F,
) -> (r: Vec<u64>)
    requires
        unit_ok(*fpu),
    ensures
        r@ == Seq::new(
            count as nat,
            |i: int| rand_at(min, max, seed_or(seed), i as nat, unit(*fpu)),
        ),
{
    let start: u32 = match seed {
        Some(s) => s,
        None => DEFAULT_SEED,
    };
    let mut rng = Mt19937::new(start);
    let span: u64 = ask(fpu, FloatOp::Sub, max, min);
    let mut r: Vec<u64> = Vec::new();
    let mut i: usize = 0;
    while i < count
        invariant
            i <= count,
            unit_ok(*fpu),
            rng.ok(),
            rng.seed() == start,
            rng.drawn() == 2 * i,
            span == unit(*fpu)(FloatOp::Sub, max, min),
            r@ =~= Seq::new(i as nat, |j: int| rand_at(min, max, start, j as nat, unit(*fpu))),
        decreases count - i,
    {
        let part: u64 = rng.canonical(fpu);
        r.push(ask(fpu, FloatOp::Add, min, ask(fpu, FloatOp::Mul, span, part)));
        i = i + 1;
    }
    r
}

/// Asking for fewer numbers gives the first of those that asking for more gives.
pub proof fn law_fewer_numbers_are_a_prefix(
    min: u64,
    max: u64,
    seed: u32,
    few: nat,
    many: nat,
    f: spec_fn(FloatOp, u64, u64) -> u64,
)
    requires
        few <= many,
    ensures
        Seq::new(few, |i: int| rand_at(min, max, seed, i as nat, f)) == Seq::new(
            many,
            |i: int| rand_at(min, max, seed, i as nat, f),
        ).take(few as int),
{
    assert(Seq::new(few, |i: int| rand_at(min, max, seed, i as nat, f)) =~= Seq::new(
        many,
        |i: int| rand_at(min, max, seed, i as nat, f),
    ).take(few as int));
}

/// The words of a seed begin with the seed itself; the next 623 come each from the one before it, multiplied
/// and counted up in 32 bits; and from then on each is the word 397 places after one, mixed with the top bit of
/// that one and the rest of the next.
pub proof fn law_words(seed: u32, k: nat)
    ensures
        word(seed, 0) == seed,
        0 < k < 624 ==> ({
            let prev = word(seed, (k - 1) as nat);
            word(seed, k) as int == (1_812_433_253 * ((prev ^ (prev >> 30u32)) as int) + k) % 0x1_0000_0000
        }),
        ({
            let y = (word(seed, k) & 0x8000_0000u32) | (word(seed, k + 1) & 0x7fff_ffffu32);
            word(seed, k + 624) == word(seed, k + 397) ^ ((y >> 1u32) ^ (if y & 1u32 == 1u32 {
                0x9908_b0dfu32
            } else {
                0u32
            }))
        }),
{
    if 0 < k < 624 {
        let prev = word(seed, (k - 1) as nat);
        let x = prev ^ (prev >> 30u32);
        let p: int = 1_812_433_253 * (x as int);
        assert(0 <= p < 0x1_0000_0000 * 0x1_0000_0000) by (nonlinear_arith)
            requires
                p == 1_812_433_253 * (x as int),
                0 <= x as int <= 0xffff_ffff,
        ;
        assert((p % 0x1_0000_0000 + k as int) % 0x1_0000_0000 == (p + k as int) % 0x1_0000_0000);
    }
    let y = (word(seed, k) & 0x8000_0000u32) | (word(seed, k + 1) & 0x7fff_ffffu32);
    assert(y & 1u32 == 0u32 || y & 1u32 == 1u32) by (bit_vector);
}

/// A word is drawn as it is tempered: shifted and mixed four times, by 11 to the right, by 7 and by 15 to the
/// left under their masks, and by 18 to the right.
pub proof fn law_draws(seed: u32, n: nat, a: u32, b: u32, c: u32)
    requires
        a == word(seed, n + 624) ^ (word(seed, n + 624) >> 11u32),
        b == a ^ ((a << 7u32) & 0x9d2c_5680u32),
        c == b ^ ((b << 15u32) & 0xefc6_0000u32),
    ensures
        draw(seed, n) == c ^ (c >> 18u32),
{
}

/// A random number is the lower bound and, of what lies up to the upper bound, the part that two words say: the
/// first of them and the second times two to the 32nd, over two to the 64th. The `i`-th one takes the words
/// `2i` and `2i + 1`. Without a seed the numbers are those of the seed zero.
pub proof fn law_random_numbers(min: u64, max: u64, seed: u32, i: nat, f: spec_fn(FloatOp, u64, u64) -> u64)
    ensures
        ({
            let low = f(FloatOp::FromInt, draw(seed, 2 * i) as u64, 0);
            let high = f(FloatOp::FromInt, draw(seed, 2 * i + 1) as u64, 0);
            let sum = f(FloatOp::Add, low, f(FloatOp::Mul, high, 0x41f0_0000_0000_0000));
            let part = f(FloatOp::Div, sum, 0x43f0_0000_0000_0000);
            num_lt(part, ONE) ==> rand_at(min, max, seed, i, f) == f(
                FloatOp::Add,
                min,
                f(FloatOp::Mul, f(FloatOp::Sub, max, min), part),
            )
        }),
        seed_or(None) == 0,
        seed_or(Some(seed)) == seed,
{
}

} // verus!

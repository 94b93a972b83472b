//! Deterministic random draws.
//!
//! A generator is the eight-round ChaCha stream of `rand_chacha`, identified by the seed it was
//! expanded from and the position in its stream. Both are plain numbers, so a draw is a function
//! from one position to a value and the next position, and replaying a seed replays its draws.

use rand::seq::SliceRandom;
use rand::{Rng, SeedableRng};
use rand_chacha::ChaCha8Rng;
use vstd::prelude::*;
use crate::scalar::{Scalar, ONE, SIGN};

verus! {

/// A position in the random stream of a seed.
#[derive(Debug, Clone, Copy, PartialEq, Eq, Structural)]
pub struct TrialRng {
    /// The seed that the stream was expanded from.
    pub seed: u64,
    /// How many 32-bit words of the stream have been consumed.
    pub word: u128,
}

/// What `Rng::gen_range(0..bound)` draws on the stream of `seed` at `word`, and the position
/// behind the draw.
pub uninterp spec fn chacha_below(seed: u64, word: u128, bound: u64) -> (u64, u128);

/// What `Rng::gen_ratio(1, 2)` draws on the stream of `seed` at `word`, and the position behind
/// the draw.
pub uninterp spec fn chacha_coin(seed: u64, word: u128) -> (bool, u128);

/// What `Rng::gen::<u64>` draws on the stream of `seed` at `word`, and the position behind the
/// draw.
pub uninterp spec fn chacha_word(seed: u64, word: u128) -> (u64, u128);

/// The order in which `SliceRandom::shuffle` leaves `items` on the stream of `seed` at `word`,
/// and the position behind the draw.
pub uninterp spec fn chacha_shuffle(seed: u64, word: u128, items: Seq<usize>) -> (
    Seq<usize>,
    u128,
);

/// Calls `rand::Rng::gen_range` with `0..bound` on the `ChaCha8Rng` of `seed`, placed at `word`
/// by `set_word_pos`. The draw is below `bound`; which number it is, and how many words it
/// consumed, is a fixed function of the three arguments and is left as a name.
#[verifier::external_body]
fn gen_below(seed: u64, word: u128, bound: u64) -> (r: (u64, u128))
    requires
        bound > 0,
    ensures
        r == chacha_below(seed, word, bound),
        r.0 < bound,
{
    let mut rng = ChaCha8Rng::seed_from_u64(seed);
    rng.set_word_pos(word);
    let k = rng.gen_range(0..bound);
    (k, rng.get_word_pos())
}

/// Calls `rand::Rng::gen_ratio` with one in two on the `ChaCha8Rng` of `seed`, placed at `word`
/// by `set_word_pos`. Which side the coin falls on, and how many words it consumed, is a fixed
/// function of the two arguments and is left as a name.
#[verifier::external_body]
fn gen_coin(seed: u64, word: u128) -> (r: (bool, u128))
    ensures
        r == chacha_coin(seed, word),
{
    let mut rng = ChaCha8Rng::seed_from_u64(seed);
    rng.set_word_pos(word);
    let b = rng.gen_ratio(1, 2);
    (b, rng.get_word_pos())
}

/// Calls `rand::Rng::gen::<u64>` on the `ChaCha8Rng` of `seed`, placed at `word` by
/// `set_word_pos`. Which number is drawn, and how many words it consumed, is a fixed function of
/// the two arguments and is left as a name.
#[verifier::external_body]
fn gen_word(seed: u64, word: u128) -> (r: (u64, u128))
    ensures
        r == chacha_word(seed, word),
{
    let mut rng = ChaCha8Rng::seed_from_u64(seed);
    rng.set_word_pos(word);
    let k = rng.gen::<u64>();
    (k, rng.get_word_pos())
}

/// Calls `rand::seq::SliceRandom::shuffle` on `items` with the `ChaCha8Rng` of `seed`, placed at
/// `word` by `set_word_pos`. The items are rearranged, none lost and none added; which order
/// they end in is a fixed function of the arguments and is left as a name.
#[verifier::external_body]
fn gen_shuffle(seed: u64, word: u128, items: Vec<usize>) -> (r: (Vec<usize>, u128))
    ensures
        (r.0@, r.1) == chacha_shuffle(seed, word, items@),
        r.0@.to_multiset() == items@.to_multiset(),
{
    let mut rng = ChaCha8Rng::seed_from_u64(seed);
    rng.set_word_pos(word);
    let mut items = items;
    items.shuffle(&mut rng);
    (items, rng.get_word_pos())
}

/// The numerator of a scalar from zero to one over `2^1075`: its significand, moved up by its
/// exponent. (Scalars so small that they have no full significand accept no draw either way.)
pub open spec fn numerator(key: int) -> int {
    (0x10_0000_0000_0000 + key % 0x10_0000_0000_0000) * vstd::arithmetic::power2::pow2(
        (key / 0x10_0000_0000_0000) as nat,
    )
}

/// How many of the `2^64` draws of a word a probability below one accepts: `p * 2^64`, rounded
/// down.
pub open spec fn accepted(p: Scalar) -> int {
    numerator(p.key()) / vstd::arithmetic::power2::pow2(1011) as int
}

/// How many of the draws of a word a probability below one accepts.
fn acceptance(p: &Scalar) -> (n: u64)
    requires
        p.probability(),
        p.key() < ONE,
    ensures
        n == accepted(*p),
{
    let k: u64 = if p.bits >= SIGN {
        0
    } else {
        p.bits
    };
    let e: u64 = k / 0x10_0000_0000_0000;
    let m: u64 = 0x10_0000_0000_0000 + k % 0x10_0000_0000_0000;
    if e >= 1011 {
        let s: u64 = e - 1011;
        proof {
            vstd::arithmetic::power2::lemma2_to64();
            if s < 11 {
                vstd::arithmetic::power2::lemma_pow2_strictly_increases(s as nat, 11);
            }
            let (a, b) = (m as int, vstd::arithmetic::power2::pow2(s as nat) as int);
            assert(a * b <= 0xffff_ffff_ffff_ffff) by (nonlinear_arith)
                requires
                    0 <= a < 0x20_0000_0000_0000,
                    0 <= b <= 2048,
            ;
            vstd::bits::lemma_u64_shl_is_mul(m, s);
            let d = vstd::arithmetic::power2::pow2(1011) as int;
            vstd::arithmetic::power2::lemma_pow2_pos(1011);
            vstd::arithmetic::power2::lemma_pow2_adds(1011, s as nat);
            assert(a * (d * b) == d * (a * b)) by (nonlinear_arith);
            vstd::arithmetic::div_mod::lemma_div_multiples_vanish(a * b, d);
        }
        m << s
    } else {
        let s: u64 = 1011 - e;
        proof {
            let (a, b, d) = (
                m as int,
                vstd::arithmetic::power2::pow2(e as nat) as int,
                vstd::arithmetic::power2::pow2(s as nat) as int,
            );
            vstd::arithmetic::power2::lemma_pow2_pos(e as nat);
            vstd::arithmetic::power2::lemma_pow2_pos(s as nat);
            vstd::arithmetic::power2::lemma_pow2_adds(e as nat, s as nat);
            assert(a * b == b * a) by (nonlinear_arith);
            vstd::arithmetic::div_mod::lemma_div_denominator(b * a, b, d);
            vstd::arithmetic::div_mod::lemma_div_multiples_vanish(a, b);
        }
        if s < 64 {
            proof {
                vstd::bits::lemma_u64_shr_is_div(m, s);
            }
            m >> s
        } else {
            proof {
                vstd::arithmetic::power2::lemma2_to64_rest();
                vstd::arithmetic::power2::lemma_pow2_strictly_increases(63, s as nat);
                vstd::arithmetic::div_mod::lemma_basic_div(
                    m as int,
                    vstd::arithmetic::power2::pow2(s as nat) as int,
                );
            }
            0
        }
    }
}

proof fn numerator_grows(a: int, b: int)
    requires
        0 <= a <= b,
    ensures
        numerator(a) <= numerator(b),
{
    let u: int = 0x10_0000_0000_0000;
    let (ea, eb) = ((a / u) as nat, (b / u) as nat);
    let (ma, mb) = (u + a % u, u + b % u);
    let (pa, pb) = (
        vstd::arithmetic::power2::pow2(ea) as int,
        vstd::arithmetic::power2::pow2(eb) as int,
    );
    vstd::arithmetic::power2::lemma_pow2_pos(ea);
    if ea == eb {
        assert(ma * pa <= mb * pa) by (nonlinear_arith)
            requires
                ma <= mb,
                pa > 0,
        ;
    } else {
        if ea + 1 < eb {
            vstd::arithmetic::power2::lemma_pow2_strictly_increases(ea + 1, eb);
        }
        vstd::arithmetic::power2::lemma_pow2_unfold(ea + 1);
        assert(ma * pa <= mb * pb) by (nonlinear_arith)
            requires
                0 < ma < 2 * u,
                u <= mb,
                0 < pa,
                2 * pa <= pb,
                u == 0x10_0000_0000_0000,
        ;
    }
}

/// Wherever an event comes about, every event at least as likely comes about too.
pub proof fn law_likelier_events_come_about_too(rng: TrialRng, p: Scalar, q: Scalar)
    requires
        p.probability(),
        q.probability(),
        p.key() <= q.key(),
    ensures
        rng.strikes(p) ==> rng.strikes(q),
{
    numerator_grows(p.key(), q.key());
    vstd::arithmetic::power2::lemma_pow2_pos(1011);
    vstd::arithmetic::div_mod::lemma_div_is_ordered(
        numerator(p.key()),
        numerator(q.key()),
        vstd::arithmetic::power2::pow2(1011) as int,
    );
}

/// An event of probability zero never comes about, and one of probability one always does.
pub proof fn law_certain_events_are_certain(rng: TrialRng, p: Scalar)
    ensures
        p.key() == 0 ==> !rng.strikes(p),
        p.key() == ONE ==> rng.strikes(p),
{
    let u: int = 0x10_0000_0000_0000;
    vstd::arithmetic::power2::lemma2_to64();
    vstd::arithmetic::power2::lemma2_to64_rest();
    vstd::arithmetic::power2::lemma_pow2_strictly_increases(63, 1011);
    assert(numerator(0) == u) by {
        assert(0int / u == 0 && 0int % u == 0);
    }
    vstd::arithmetic::div_mod::lemma_basic_div(
        u,
        vstd::arithmetic::power2::pow2(1011) as int,
    );
}

impl TrialRng {
    /// The draw below `bound` at this position.
    pub open spec fn pick(self, bound: u64) -> u64 {
        chacha_below(self.seed, self.word, bound).0
    }

    /// The position behind a draw below `bound`.
    pub open spec fn past_pick(self, bound: u64) -> TrialRng {
        TrialRng { seed: self.seed, word: chacha_below(self.seed, self.word, bound).1 }
    }

    /// The side that a fair coin falls on at this position.
    pub open spec fn flip(self) -> bool {
        chacha_coin(self.seed, self.word).0
    }

    /// The position behind a coin flip.
    pub open spec fn past_flip(self) -> TrialRng {
        TrialRng { seed: self.seed, word: chacha_coin(self.seed, self.word).1 }
    }

    /// Whether an event of probability `p` comes about at this position: it does when the word
    /// drawn here is among those that `p` accepts. A sure event draws no word.
    pub open spec fn strikes(self, p: Scalar) -> bool {
        p.key() >= ONE || chacha_word(self.seed, self.word).0 < accepted(p)
    }

    /// The position behind the draw for an event of probability `p`.
    pub open spec fn past_strike(self, p: Scalar) -> TrialRng {
        if p.key() >= ONE {
            self
        } else {
            TrialRng { seed: self.seed, word: chacha_word(self.seed, self.word).1 }
        }
    }

    /// The start of the stream of `seed`.
    pub fn new(seed: u64) -> (r: TrialRng)
        ensures
            r == (TrialRng { seed, word: 0 }),
    {
        TrialRng { seed, word: 0 }
    }

    /// Draws a number below `bound`.
    pub fn below(&mut self, bound: u64) -> (k: u64)
        requires
            bound > 0,
        ensures
            k == old(self).pick(bound),
            k < bound,
            *final(self) == old(self).past_pick(bound),
    {
        let (k, word) = gen_below(self.seed, self.word, bound);
        self.word = word;
        k
    }

    /// Flips a fair coin.
    pub fn coin(&mut self) -> (b: bool)
        ensures
            b == old(self).flip(),
            *final(self) == old(self).past_flip(),
    {
        let (b, word) = gen_coin(self.seed, self.word);
        self.word = word;
        b
    }

    /// Draws whether an event of probability `p` comes about.
    pub fn chance(&mut self, p: Scalar) -> (b: bool)
        requires
            p.probability(),
        ensures
            b == old(self).strikes(p),
            *final(self) == old(self).past_strike(p),
    {
        if p.bits == ONE {
            return true;
        }
        let n = acceptance(&p);
        let (k, word) = gen_word(self.seed, self.word);
        self.word = word;
        k < n
    }

    /// Rearranges `items` at random.
    pub fn shuffle(&mut self, items: Vec<usize>) -> (r: Vec<usize>)
        ensures
            r@ == chacha_shuffle(old(self).seed, old(self).word, items@).0,
            r@.to_multiset() == items@.to_multiset(),
            final(self).seed == old(self).seed,
            final(self).word == chacha_shuffle(old(self).seed, old(self).word, items@).1,
    {
        let (r, word) = gen_shuffle(self.seed, self.word, items);
        self.word = word;
        r
    }
}

} // verus!

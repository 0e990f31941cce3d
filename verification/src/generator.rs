//! The executable MT19937 generator, proved against the model in
//! `crate::model`.

use vstd::prelude::*;
use crate::model::{
    BOOT_MULT, BOOTSTRAP_SEED, LOWER_MASK, M, MATRIX_A, MIX1_MULT, MIX2_MULT, N, SEED_MULT,
    TEMPERING_MASK_B, TEMPERING_MASK_C, UPPER_MASK, WORD_MOD, array_seeded, boot_seeded,
    boot_word, lemma_mask_is_mod, lemma_shr_bound, lemma_temper_ok, lemma_twist_at_ok,
    lemma_xor_word_ok, mix1, mix1_word, mix2, mix2_word, outputs, scramble, seed_word,
    seeded, state_ok, step_cursor, step_output, step_state, temper, twist_at, twist_prefix,
    twisted, word_ok,
};

verus! {

/// Rejection returned when array seeding is handed an empty key sequence.
#[derive(Debug)]
pub struct InvalidSeed;

/// The Mersenne Twister generator: a 624-word state array of 32-bit values
/// (each carried in a `u64` whose upper half is zero), a cursor giving the
/// next word to consume, and the seed the state was built from.
pub struct Prng {
    seed: u64,
    mt: Vec<u64>,
    index: usize,
}

impl Prng {
    /// The state array as a sequence of 32-bit words.
    pub closed spec fn state(&self) -> Seq<u64> {
        self.mt@
    }

    /// The cursor: how many words of the current generation have been
    /// consumed.  A value at or past `N` means the array must be
    /// regenerated before the next read.
    pub closed spec fn cursor(&self) -> int {
        self.index as int
    }

    /// The seed the generator was last seeded with, kept for introspection.
    pub closed spec fn stored_seed(&self) -> u64 {
        self.seed
    }

    /// Well-formedness: the state holds exactly 624 words, each a 32-bit
    /// value, and the cursor is at most one past the end.  Every generator
    /// reachable through the public operations satisfies this.
    pub open spec fn wf(&self) -> bool {
        &&& state_ok(self.state())
        &&& self.cursor() <= N + 1
    }

    /// Construct a generator from an integer seed.  The seed is masked to
    /// 32 bits and expanded by the congruential recurrence; the cursor is
    /// left exhausted so the first extraction twists.
    pub fn new(seed: u64) -> (g: Prng)
        ensures
            g.wf(),
            g.state() == seeded(seed),
            g.cursor() == (N + 1) as int,
            g.stored_seed() == seed,
    {
        let mut mt: Vec<u64> = Vec::new();
        let mut i: usize = 0;
        while i < N
            invariant
                mt@.len() == i,
                i <= N,
                forall|k: int| 0 <= k < i ==> #[trigger] mt@[k] == 0,
            decreases N - i,
        {
            mt.push(0);
            i += 1;
        }
        let mut g = Prng { seed, mt, index: N + 1 };
        g.reset(seed);
        g
    }

    /// Replace the state and the stored seed as construction from `seed`
    /// would, and leave the cursor exhausted.  Resetting twice with one
    /// seed yields the same state twice: the result does not depend on the
    /// generator's prior state.
    pub fn reset(&mut self, seed: u64)
        requires
            old(self).wf(),
        ensures
            final(self).wf(),
            final(self).state() == seeded(seed),
            final(self).cursor() == (N + 1) as int,
            final(self).stored_seed() == seed,
    {
        self.seed = seed;
        self.mt.set(0, seed & 0xffffffff);
        proof {
            lemma_mask_is_mod(seed);
        }
        let mut i: usize = 1;
        while i < N
            invariant
                self.mt@.len() == N,
                1 <= i <= N,
                forall|k: int| 0 <= k < i ==> #[trigger] self.mt@[k] == seed_word(seed, k as nat),
                state_ok(self.mt@),
                self.seed == seed,
            decreases N - i,
        {
            let prev = self.mt[i - 1];
            let p = SEED_MULT * prev;
            let w = p & 0xffffffff;
            proof {
                lemma_mask_is_mod(p);
                assert(w == seed_word(seed, i as nat));
            }
            self.mt.set(i, w);
            i += 1;
        }
        self.index = N + 1;
        proof {
            assert(self.mt@ =~= seeded(seed));
        }
    }

    /// Construct a generator from a non-empty sequence of 32-bit key
    /// words, the statistically recommended initializer: the bootstrap
    /// constant is expanded by the avalanche recurrence, the state is then
    /// mixed twice — once folding the key in and once more — and word 0 is
    /// forced to the top bit.  An empty key is rejected before any state
    /// is built.
    pub fn from_array(key: &Vec<u32>) -> (r: Result<Prng, InvalidSeed>)
        ensures
            r is Err <==> key@.len() == 0,
            match r {
                Ok(g) => {
                    &&& g.wf()
                    &&& g.state() == array_seeded(key@)
                    &&& g.cursor() == (N + 1) as int
                    &&& g.stored_seed() == BOOTSTRAP_SEED
                },
                Err(_) => true,
            },
    {
        let key_length = key.len();
        if key_length == 0 {
            return Err(InvalidSeed);
        }
        let mut mt: Vec<u64> = Vec::new();
        mt.push(BOOTSTRAP_SEED & 0xffffffff);
        proof {
            lemma_mask_is_mod(BOOTSTRAP_SEED);
        }
        let mut b: usize = 1;
        while b < N
            invariant
                mt@.len() == b,
                1 <= b <= N,
                forall|k: int|
                    0 <= k < b ==> #[trigger] mt@[k] == boot_word(BOOTSTRAP_SEED, k as nat),
                forall|k: int| 0 <= k < b ==> word_ok(#[trigger] mt@[k]),
            decreases N - b,
        {
            let prev = mt[b - 1];
            let xp = prev ^ (prev >> 30);
            proof {
                lemma_shr_bound(prev, 30);
                lemma_xor_word_ok(prev, prev >> 30);
            }
            let pp = xp * BOOT_MULT + (b as u64);
            let w = pp & 0xffffffff;
            proof {
                lemma_mask_is_mod(pp);
                assert(w == boot_word(BOOTSTRAP_SEED, b as nat));
            }
            mt.push(w);
            b += 1;
        }
        let mut g = Prng { seed: BOOTSTRAP_SEED, mt, index: N + 1 };
        proof {
            assert(g.mt@ =~= boot_seeded(BOOTSTRAP_SEED));
        }
        let ghost s0 = g.mt@;
        let mut i: usize = 1;
        let mut j: usize = 0;
        let mut k: usize = if N > key_length {
            N
        } else {
            key_length
        };
        let ghost k0 = k as nat;
        while k > 0
            invariant
                state_ok(g.mt@),
                1 <= i < N,
                j < key_length,
                key_length == key@.len(),
                0 < key_length,
                g.seed == BOOTSTRAP_SEED,
                g.index == N + 1,
                mix1(g.mt@, i as int, j as int, key@, k as nat) == mix1(s0, 1, 0, key@, k0),
            decreases k,
        {
            let ghost s_pre = g.mt@;
            let ghost i_pre = i as int;
            let ghost j_pre = j as int;
            let ghost k_pre = k as nat;
            let prev = g.mt[i - 1];
            let cur = g.mt[i];
            let xp = prev ^ (prev >> 30);
            proof {
                lemma_shr_bound(prev, 30);
                lemma_xor_word_ok(prev, prev >> 30);
            }
            let pp = xp * MIX1_MULT;
            let p = pp & 0xffffffff;
            let a = cur ^ p;
            proof {
                lemma_mask_is_mod(pp);
                assert(p == scramble(prev, MIX1_MULT));
                lemma_xor_word_ok(cur, p);
            }
            let ab = a + key[j] as u64;
            let b = ab & 0xffffffff;
            let jm = (j as u64) & 0xffffffff;
            proof {
                lemma_mask_is_mod(ab);
                lemma_mask_is_mod(j as u64);
            }
            let bj = b + jm;
            let w = bj & 0xffffffff;
            proof {
                lemma_mask_is_mod(bj);
                vstd::arithmetic::div_mod::lemma_add_mod_noop(
                    a + key[j as int],
                    j as int,
                    WORD_MOD as int,
                );
                assert(w == mix1_word(cur, prev, key[j as int], j as int));
            }
            g.mt.set(i, w);
            i += 1;
            j += 1;
            if i >= N {
                let last = g.mt[N - 1];
                g.mt.set(0, last);
                i = 1;
            }
            if j >= key_length {
                j = 0;
            }
            k -= 1;
            proof {
                assert(mix1(s_pre, i_pre, j_pre, key@, k_pre) == mix1(
                    g.mt@,
                    i as int,
                    j as int,
                    key@,
                    k as nat,
                ));
            }
        }
        let ghost m1 = mix1(s0, 1, 0, key@, k0);
        proof {
            assert(g.mt@ == m1.0 && i as int == m1.1);
        }
        k = N - 1;
        while k > 0
            invariant
                state_ok(g.mt@),
                1 <= i < N,
                g.seed == BOOTSTRAP_SEED,
                g.index == N + 1,
                mix2(g.mt@, i as int, k as nat) == mix2(m1.0, m1.1, (N - 1) as nat),
            decreases k,
        {
            let ghost s_pre = g.mt@;
            let ghost i_pre = i as int;
            let ghost k_pre = k as nat;
            let prev = g.mt[i - 1];
            let cur = g.mt[i];
            let xp = prev ^ (prev >> 30);
            proof {
                lemma_shr_bound(prev, 30);
                lemma_xor_word_ok(prev, prev >> 30);
            }
            let pp = xp * MIX2_MULT;
            let p = pp & 0xffffffff;
            let a = cur ^ p;
            proof {
                lemma_mask_is_mod(pp);
                assert(p == scramble(prev, MIX2_MULT));
                lemma_xor_word_ok(cur, p);
            }
            let aw = a + WORD_MOD - (i as u64);
            let w = aw & 0xffffffff;
            proof {
                lemma_mask_is_mod(aw);
                assert(w == mix2_word(cur, prev, i as int));
            }
            g.mt.set(i, w);
            i += 1;
            if i >= N {
                let last = g.mt[N - 1];
                g.mt.set(0, last);
                i = 1;
            }
            k -= 1;
            proof {
                assert(mix2(s_pre, i_pre, k_pre) == mix2(g.mt@, i as int, k as nat));
            }
        }
        g.mt.set(0, UPPER_MASK);
        proof {
            assert(g.mt@ == array_seeded(key@));
        }
        Ok(g)
    }

    /// Draw the next 32-bit word.  If the cursor is exhausted the whole
    /// state array is regenerated in place first; the word under the
    /// cursor is then tempered and returned, and the cursor advances.
    pub fn rand(&mut self) -> (r: u64)
        requires
            old(self).wf(),
        ensures
            final(self).wf(),
            final(self).state() == step_state(old(self).state(), old(self).cursor()),
            final(self).cursor() == step_cursor(old(self).cursor()),
            final(self).stored_seed() == old(self).stored_seed(),
            r == step_output(old(self).state(), old(self).cursor()),
            word_ok(r),
    {
        if self.index >= N {
            self.twist();
        }
        let y0 = self.mt[self.index];
        self.index += 1;
        let mut y = y0;
        y = y ^ (y >> 11);
        y = y ^ ((y << 7) & TEMPERING_MASK_B);
        y = y ^ ((y << 15) & TEMPERING_MASK_C);
        y = y ^ (y >> 18);
        proof {
            assert(y == temper(y0));
            lemma_temper_ok(y0);
        }
        y
    }

    /// Regenerate all 624 state words in place.  The three segments below
    /// are the standard unrolling of the circular recurrence: they avoid
    /// runtime index wraparound while computing, word for word, what
    /// `twisted` defines.
    fn twist(&mut self)
        requires
            old(self).wf(),
        ensures
            final(self).state() == twisted(old(self).state()),
            state_ok(final(self).state()),
            final(self).cursor() == 0,
            final(self).stored_seed() == old(self).stored_seed(),
    {
        let ghost s0 = self.mt@;
        let mut kk: usize = 0;
        while kk < N - M
            invariant
                state_ok(s0),
                s0.len() == N,
                kk <= N - M,
                self.mt@ == twist_prefix(s0, kk as nat),
                state_ok(self.mt@),
                self.seed == old(self).seed,
                self.index == old(self).index,
            decreases N - M - kk,
        {
            let y = (self.mt[kk] & UPPER_MASK) | (self.mt[kk + 1] & LOWER_MASK);
            let mval = if y & 1 == 1 {
                MATRIX_A
            } else {
                0
            };
            let w = self.mt[kk + M] ^ (y >> 1) ^ mval;
            proof {
                vstd::arithmetic::div_mod::lemma_small_mod((kk + 1) as nat, N as nat);
                vstd::arithmetic::div_mod::lemma_small_mod((kk + M) as nat, N as nat);
                assert(w == twist_at(self.mt@, kk as int));
                lemma_twist_at_ok(self.mt@, kk as int);
            }
            self.mt.set(kk, w);
            proof {
                assert(self.mt@ =~= twist_prefix(s0, (kk + 1) as nat));
            }
            kk += 1;
        }
        while kk < N - 1
            invariant
                state_ok(s0),
                s0.len() == N,
                N - M <= kk <= N - 1,
                self.mt@ == twist_prefix(s0, kk as nat),
                state_ok(self.mt@),
                self.seed == old(self).seed,
                self.index == old(self).index,
            decreases N - 1 - kk,
        {
            let y = (self.mt[kk] & UPPER_MASK) | (self.mt[kk + 1] & LOWER_MASK);
            let mval = if y & 1 == 1 {
                MATRIX_A
            } else {
                0
            };
            let w = self.mt[kk + M - N] ^ (y >> 1) ^ mval;
            proof {
                vstd::arithmetic::div_mod::lemma_small_mod((kk + 1) as nat, N as nat);
                vstd::arithmetic::div_mod::lemma_fundamental_div_mod_converse(
                    kk + M as int,
                    N as int,
                    1,
                    kk + M - N,
                );
                assert(w == twist_at(self.mt@, kk as int));
                lemma_twist_at_ok(self.mt@, kk as int);
            }
            self.mt.set(kk, w);
            proof {
                assert(self.mt@ =~= twist_prefix(s0, (kk + 1) as nat));
            }
            kk += 1;
        }
        let y = (self.mt[N - 1] & UPPER_MASK) | (self.mt[0] & LOWER_MASK);
        let mval = if y & 1 == 1 {
            MATRIX_A
        } else {
            0
        };
        let w = self.mt[M - 1] ^ (y >> 1) ^ mval;
        proof {
            vstd::arithmetic::div_mod::lemma_fundamental_div_mod_converse(N as int, N as int, 1, 0);
            vstd::arithmetic::div_mod::lemma_fundamental_div_mod_converse(
                (N - 1 + M) as int,
                N as int,
                1,
                (M - 1) as int,
            );
            assert(w == twist_at(self.mt@, (N - 1) as int));
            lemma_twist_at_ok(self.mt@, (N - 1) as int);
        }
        self.mt.set(N - 1, w);
        self.index = 0;
        proof {
            assert(self.mt@ =~= twist_prefix(s0, N as nat));
        }
    }
}

/// Determinism: the output sequence of a generator is a function of its
/// state and cursor alone.  Two generators that stand in the same state —
/// as any two generators constructed with the same seed do, by `new`'s
/// contract — produce identical outputs, however many words are drawn.
pub proof fn lemma_determinism(g1: &Prng, g2: &Prng, n: nat)
    requires
        g1.state() == g2.state(),
        g1.cursor() == g2.cursor(),
    ensures
        outputs(g1.state(), g1.cursor(), n) == outputs(g2.state(), g2.cursor(), n),
{
}

/// Reset idempotence: resetting with a seed puts the generator in a state
/// that depends on that seed alone, so two generators reset with the same
/// seed — whatever they held before — go on to produce the same outputs.
pub proof fn lemma_reset_idempotent(g1: &Prng, g2: &Prng, seed: u64, n: nat)
    requires
        g1.state() == seeded(seed),
        g1.cursor() == (N + 1) as int,
        g2.state() == seeded(seed),
        g2.cursor() == (N + 1) as int,
    ensures
        outputs(g1.state(), g1.cursor(), n) == outputs(g2.state(), g2.cursor(), n),
{
}

} // verus!

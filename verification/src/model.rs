//! Mathematical model of the MT19937 generator.
//!
//! Every state word is a 32-bit value carried in a `u64`; `WORD_MOD` is
//! 2^32 and `word_ok` says a word fits below it.  The spec functions here
//! define, over `Seq<u64>`, exactly what seeding, the twist recurrence,
//! tempering and the per-call step of the generator compute.

use vstd::prelude::*;

verus! {

/// Number of words in the state array.
pub const N: usize = 624;

/// Offset of the word mixed into each twisted word (the period parameter).
pub const M: usize = 397;

/// The twist constant, XORed in when the low bit of the mixed word is set.
pub const MATRIX_A: u64 = 0x9908b0df;

/// Isolates the top bit of a 32-bit word.
pub const UPPER_MASK: u64 = 0x80000000;

/// Isolates the low 31 bits of a 32-bit word.
pub const LOWER_MASK: u64 = 0x7fffffff;

/// Mask of the second tempering stage.
pub const TEMPERING_MASK_B: u64 = 0x9d2c5680;

/// Mask of the third tempering stage.
pub const TEMPERING_MASK_C: u64 = 0xefc60000;

/// 2^32: the modulus every state word is kept under.
pub const WORD_MOD: u64 = 0x100000000;

/// Multiplier of the linear congruential recurrence used by integer seeding.
pub const SEED_MULT: u64 = 69069;

/// A word holds a 32-bit value.
pub open spec fn word_ok(x: u64) -> bool {
    x < WORD_MOD
}

/// A well-formed state array: 624 words, each a 32-bit value.
pub open spec fn state_ok(s: Seq<u64>) -> bool {
    &&& s.len() == N
    &&& forall|i: int| 0 <= i < s.len() ==> word_ok(#[trigger] s[i])
}

/// The low 32 bits of a (non-negative) integer, as a word.
pub open spec fn mask32(x: int) -> u64 {
    (x % (WORD_MOD as int)) as u64
}

/// Word `i` of the state seeded from `seed`: word 0 is the seed masked to
/// 32 bits, and each later word follows by the multiplicative congruential
/// recurrence `state[i] = 69069 * state[i-1] mod 2^32`.
pub open spec fn seed_word(seed: u64, i: nat) -> u64
    decreases i,
{
    if i == 0 {
        seed & 0xffffffff
    } else {
        mask32(SEED_MULT * seed_word(seed, (i - 1) as nat))
    }
}

/// The full state array produced by integer seeding.
pub open spec fn seeded(seed: u64) -> Seq<u64> {
    Seq::new(N as nat, |i: int| seed_word(seed, i as nat))
}

/// The twist constant selected by the parity of `y`: the low bit picks
/// between 0 and `MATRIX_A`.
pub open spec fn mag(y: u64) -> u64 {
    if y & 1 == 1 {
        MATRIX_A
    } else {
        0
    }
}

/// The twisted value at index `k` of state `s`, treating the array as
/// circular: the top bit of word `k` is joined with the low 31 bits of the
/// next word, shifted down once, and combined with the word `M` places
/// ahead and the parity-selected twist constant.
pub open spec fn twist_at(s: Seq<u64>, k: int) -> u64 {
    let y = (s[k] & UPPER_MASK) | (s[(k + 1) % (N as int)] & LOWER_MASK);
    s[(k + M as int) % (N as int)] ^ (y >> 1) ^ mag(y)
}

/// The state after the first `k` words have been twisted in place, in
/// index order.  Words at indices `k` and above still hold their old
/// values; each twisted word reads the array as it stood when its turn
/// came, which is how the in-place regeneration proceeds.
pub open spec fn twist_prefix(s: Seq<u64>, k: nat) -> Seq<u64>
    decreases k,
{
    if k == 0 {
        s
    } else {
        let t = twist_prefix(s, (k - 1) as nat);
        t.update(k - 1, twist_at(t, k - 1))
    }
}

/// A full regeneration of the state array: all 624 words twisted in place.
pub open spec fn twisted(s: Seq<u64>) -> Seq<u64> {
    twist_prefix(s, N as nat)
}

/// The tempering transform applied to a raw state word before it leaves
/// the generator.
pub open spec fn temper(y: u64) -> u64 {
    let y1 = y ^ (y >> 11);
    let y2 = y1 ^ ((y1 << 7) & TEMPERING_MASK_B);
    let y3 = y2 ^ ((y2 << 15) & TEMPERING_MASK_C);
    y3 ^ (y3 >> 18)
}

/// Bootstrap seed that array seeding expands before mixing the key in.
pub const BOOTSTRAP_SEED: u64 = 19650218;

/// Multiplier of the avalanche recurrence that expands the bootstrap seed
/// for array seeding.
pub const BOOT_MULT: u64 = 1812433253;

/// Word `i` of the bootstrap state that array seeding starts from: word 0
/// is the seed masked to 32 bits, and each later word is
/// `1812433253 * (prev XOR (prev >> 30)) + i mod 2^32`.  This avalanche
/// recurrence, not the plain congruential one of `seed_word`, is what the
/// canonical array-seeded output sequence pins down.
pub open spec fn boot_word(seed: u64, i: nat) -> u64
    decreases i,
{
    if i == 0 {
        seed & 0xffffffff
    } else {
        let prev = boot_word(seed, (i - 1) as nat);
        mask32(BOOT_MULT * (prev ^ (prev >> 30)) + i)
    }
}

/// The full bootstrap state array that array seeding mixes the key into.
pub open spec fn boot_seeded(seed: u64) -> Seq<u64> {
    Seq::new(N as nat, |i: int| boot_word(seed, i as nat))
}

/// Multiplier of the first mixing pass of array seeding.
pub const MIX1_MULT: u64 = 1664525;

/// Multiplier of the second mixing pass of array seeding.
pub const MIX2_MULT: u64 = 1566083941;

/// The avalanche step shared by both mixing passes: the previous word is
/// folded with its own top bits and multiplied, modulo 2^32.
pub open spec fn scramble(prev: u64, mult: u64) -> u64 {
    mask32((prev ^ (prev >> 30)) * mult)
}

/// One word of the first mixing pass: the current word is XORed with the
/// scrambled previous word, and the key word and its position are added,
/// all modulo 2^32.
pub open spec fn mix1_word(cur: u64, prev: u64, key_j: u32, j: int) -> u64 {
    mask32((cur ^ scramble(prev, MIX1_MULT)) + key_j + j)
}

/// State, state position and key position after `k` steps of the first
/// mixing pass.  The position wraps from the end of the array back to 1,
/// copying the last word over word 0 as it does; the key position wraps
/// modulo the key length.
pub open spec fn mix1(s: Seq<u64>, i: int, j: int, key: Seq<u32>, k: nat) -> (Seq<u64>, int, int)
    decreases k,
{
    if k == 0 {
        (s, i, j)
    } else {
        let s1 = s.update(i, mix1_word(s[i], s[i - 1], key[j], j));
        let s2 = if i + 1 >= N {
            s1.update(0, s1[N - 1])
        } else {
            s1
        };
        let i2: int = if i + 1 >= N {
            1
        } else {
            i + 1
        };
        let j2: int = if j + 1 >= key.len() {
            0
        } else {
            j + 1
        };
        mix1(s2, i2, j2, key, (k - 1) as nat)
    }
}

/// One word of the second mixing pass: as in the first pass, but with the
/// position subtracted (modulo 2^32, written here as an addition of
/// `WORD_MOD`) instead of a key word added.
pub open spec fn mix2_word(cur: u64, prev: u64, i: int) -> u64 {
    mask32((cur ^ scramble(prev, MIX2_MULT)) + WORD_MOD - i)
}

/// State and state position after `k` steps of the second mixing pass,
/// with the same wraparound rule as the first.
pub open spec fn mix2(s: Seq<u64>, i: int, k: nat) -> (Seq<u64>, int)
    decreases k,
{
    if k == 0 {
        (s, i)
    } else {
        let s1 = s.update(i, mix2_word(s[i], s[i - 1], i));
        let s2 = if i + 1 >= N {
            s1.update(0, s1[N - 1])
        } else {
            s1
        };
        let i2: int = if i + 1 >= N {
            1
        } else {
            i + 1
        };
        mix2(s2, i2, (k - 1) as nat)
    }
}

/// The state array produced by array seeding: the bootstrap state, a first
/// mixing pass of `max(N, key length)` steps folding the key in, a second
/// pass of `N - 1` steps, and word 0 forced to the top bit so the array can
/// never be all zero.
pub open spec fn array_seeded(key: Seq<u32>) -> Seq<u64> {
    let s0 = boot_seeded(BOOTSTRAP_SEED);
    let k1: nat = if key.len() > N {
        key.len()
    } else {
        N as nat
    };
    let m1 = mix1(s0, 1, 0, key, k1);
    let m2 = mix2(m1.0, m1.1, (N - 1) as nat);
    m2.0.update(0, UPPER_MASK)
}

/// The state array after one call for a generator whose cursor stands at
/// `c`: an exhausted cursor (at or past `N`) regenerates the whole array,
/// otherwise the array is untouched.
pub open spec fn step_state(s: Seq<u64>, c: int) -> Seq<u64> {
    if c >= N {
        twisted(s)
    } else {
        s
    }
}

/// The cursor after one call: a twist restarts it at 1 (word 0 was just
/// consumed), otherwise it advances by one word.
pub open spec fn step_cursor(c: int) -> int {
    if c >= N {
        1
    } else {
        c + 1
    }
}

/// The word a call returns: the tempered state word under the cursor,
/// taken from the fresh generation if the cursor was exhausted.
pub open spec fn step_output(s: Seq<u64>, c: int) -> u64 {
    if c >= N {
        temper(twisted(s)[0])
    } else {
        temper(s[c])
    }
}

/// The next `n` output words of a generator whose state is `s` and whose
/// cursor is `c`.
pub open spec fn outputs(s: Seq<u64>, c: int, n: nat) -> Seq<u64>
    decreases n,
{
    if n == 0 {
        Seq::empty()
    } else {
        seq![step_output(s, c)] + outputs(step_state(s, c), step_cursor(c), (n - 1) as nat)
    }
}

/// The cursor of a freshly constructed (or freshly reset) generator after
/// `n` calls.  Construction leaves the cursor at `N + 1`, the exhausted
/// value, so the very first call twists.
pub open spec fn cursor_after(n: nat) -> int
    decreases n,
{
    if n == 0 {
        (N + 1) as int
    } else {
        step_cursor(cursor_after((n - 1) as nat))
    }
}

/// Whether call number `c` (counting from 1) of a freshly constructed
/// generator regenerates the state array.
pub open spec fn call_twists(c: nat) -> bool
    recommends
        c >= 1,
{
    cursor_after((c - 1) as nat) >= N
}

/// Masking with `& 0xffffffff` computes the remainder modulo 2^32.
pub proof fn lemma_mask_is_mod(x: u64)
    ensures
        x & 0xffffffff == x % 0x100000000,
        x & 0xffffffff < 0x100000000,
{
    assert(x & 0xffffffff == x % 0x100000000 && x & 0xffffffff < 0x100000000) by (bit_vector);
}

/// XOR of 32-bit values stays a 32-bit value.
pub proof fn lemma_xor_word_ok(a: u64, b: u64)
    requires
        word_ok(a),
        word_ok(b),
    ensures
        word_ok(a ^ b),
{
    assert(a < 0x100000000 && b < 0x100000000 ==> (a ^ b) < 0x100000000) by (bit_vector);
}

/// A masked value is bounded by the mask.
pub proof fn lemma_and_bound(a: u64, m: u64)
    ensures
        a & m <= m,
{
    assert(a & m <= m) by (bit_vector);
}

/// OR of 32-bit values stays a 32-bit value.
pub proof fn lemma_or_word_ok(a: u64, b: u64)
    requires
        word_ok(a),
        word_ok(b),
    ensures
        word_ok(a | b),
{
    assert(a < 0x100000000 && b < 0x100000000 ==> (a | b) < 0x100000000) by (bit_vector);
}

/// A right shift never grows a value.
pub proof fn lemma_shr_bound(a: u64, k: u64)
    ensures
        a >> k <= a,
{
    assert(a >> k <= a) by (bit_vector);
}

/// The twisted word at any index of a well-formed state is a 32-bit value.
pub proof fn lemma_twist_at_ok(s: Seq<u64>, k: int)
    requires
        state_ok(s),
        0 <= k < N,
    ensures
        word_ok(twist_at(s, k)),
{
    let y = (s[k] & UPPER_MASK) | (s[(k + 1) % (N as int)] & LOWER_MASK);
    lemma_and_bound(s[k], UPPER_MASK);
    lemma_and_bound(s[(k + 1) % (N as int)], LOWER_MASK);
    lemma_or_word_ok(s[k] & UPPER_MASK, s[(k + 1) % (N as int)] & LOWER_MASK);
    lemma_shr_bound(y, 1);
    lemma_xor_word_ok(s[(k + M as int) % (N as int)], y >> 1);
    lemma_xor_word_ok(s[(k + M as int) % (N as int)] ^ (y >> 1), mag(y));
}

/// Tempering a 32-bit word yields a 32-bit word.
pub proof fn lemma_temper_ok(y: u64)
    requires
        word_ok(y),
    ensures
        word_ok(temper(y)),
{
    let y1 = y ^ (y >> 11);
    let y2 = y1 ^ ((y1 << 7) & TEMPERING_MASK_B);
    let y3 = y2 ^ ((y2 << 15) & TEMPERING_MASK_C);
    lemma_shr_bound(y, 11);
    lemma_xor_word_ok(y, y >> 11);
    lemma_and_bound(y1 << 7, TEMPERING_MASK_B);
    lemma_xor_word_ok(y1, (y1 << 7) & TEMPERING_MASK_B);
    lemma_and_bound(y2 << 15, TEMPERING_MASK_C);
    lemma_xor_word_ok(y2, (y2 << 15) & TEMPERING_MASK_C);
    lemma_shr_bound(y3, 18);
    lemma_xor_word_ok(y3, y3 >> 18);
}

/// Twisting a prefix keeps the state well-formed.
proof fn lemma_twist_prefix_ok(s: Seq<u64>, k: nat)
    requires
        state_ok(s),
        k <= N,
    ensures
        state_ok(twist_prefix(s, k)),
    decreases k,
{
    if k > 0 {
        lemma_twist_prefix_ok(s, (k - 1) as nat);
        lemma_twist_at_ok(twist_prefix(s, (k - 1) as nat), k - 1);
    }
}

/// A full regeneration keeps the state well-formed.
pub proof fn lemma_twisted_ok(s: Seq<u64>)
    requires
        state_ok(s),
    ensures
        state_ok(twisted(s)),
{
    lemma_twist_prefix_ok(s, N as nat);
}

/// Range: every word a well-formed generator can output is a 32-bit
/// value, however many are drawn and wherever the cursor stands.
pub proof fn lemma_outputs_range(s: Seq<u64>, c: int, n: nat)
    requires
        state_ok(s),
        0 <= c,
    ensures
        forall|q: int|
            0 <= q < outputs(s, c, n).len() ==> word_ok(#[trigger] outputs(s, c, n)[q]),
    decreases n,
{
    if n > 0 {
        lemma_twisted_ok(s);
        if c >= N {
            lemma_temper_ok(twisted(s)[0]);
        } else {
            lemma_temper_ok(s[c]);
        }
        lemma_outputs_range(step_state(s, c), step_cursor(c), (n - 1) as nat);
        let rest = outputs(step_state(s, c), step_cursor(c), (n - 1) as nat);
        assert forall|q: int| 0 <= q < outputs(s, c, n).len() implies word_ok(
            #[trigger] outputs(s, c, n)[q],
        ) by {
            if q == 0 {
                assert(outputs(s, c, n)[0] == step_output(s, c));
            } else {
                assert(outputs(s, c, n)[q] == rest[q - 1]);
            }
        }
    }
}

/// Stepping the remainder: adding one to `a` advances `a % m` by one,
/// except that it wraps to 0 from `m - 1`.
proof fn lemma_mod_succ(a: int, m: int)
    requires
        0 <= a,
        0 < m,
    ensures
        (a + 1) % m == if a % m == m - 1 {
            0int
        } else {
            a % m + 1
        },
{
    vstd::arithmetic::div_mod::lemma_fundamental_div_mod(a, m);
    vstd::arithmetic::div_mod::lemma_mod_bound(a, m);
    if a % m == m - 1 {
        assert((a / m + 1) * m == m * (a / m) + m) by (nonlinear_arith);
        vstd::arithmetic::div_mod::lemma_fundamental_div_mod_converse(a + 1, m, a / m + 1, 0);
    } else {
        assert((a / m) * m == m * (a / m)) by (nonlinear_arith);
        vstd::arithmetic::div_mod::lemma_fundamental_div_mod_converse(a + 1, m, a / m, a % m + 1);
    }
}

/// After `n >= 1` calls the cursor of a freshly constructed generator
/// stands at `((n - 1) % N) + 1`: it walks 1, 2, ..., N and then wraps
/// back to 1 as the twist fires.
pub proof fn lemma_cursor_after(n: nat)
    requires
        n >= 1,
    ensures
        cursor_after(n) == ((n - 1) % (N as int)) + 1,
    decreases n,
{
    if n == 1 {
        vstd::arithmetic::div_mod::lemma_small_mod(0, N as nat);
        assert(cursor_after(0) == (N + 1) as int);
        assert(cursor_after(1) == step_cursor((N + 1) as int));
    } else {
        lemma_cursor_after((n - 1) as nat);
        lemma_mod_succ(n - 2, N as int);
        vstd::arithmetic::div_mod::lemma_mod_bound(n - 2, N as int);
        assert(cursor_after(n) == step_cursor(cursor_after((n - 1) as nat)));
    }
}

/// Twist boundary: of the calls made on a freshly constructed generator,
/// exactly call 1 and every 624th call after it (calls 625, 1249, ...)
/// regenerate the state array; the 623 calls in between read from the
/// generation that call left behind.
pub proof fn lemma_twist_every_n_calls(c: nat)
    requires
        c >= 1,
    ensures
        call_twists(c) <==> (c - 1) % (N as int) == 0,
{
    if c == 1 {
        assert(0int % (N as int) == 0) by {
            vstd::arithmetic::div_mod::lemma_small_mod(0, N as nat);
        }
    } else {
        lemma_cursor_after((c - 1) as nat);
        lemma_mod_succ(c - 2, N as int);
        vstd::arithmetic::div_mod::lemma_mod_bound(c - 2, N as int);
    }
}

/// The first mixing pass keeps the array length and keeps the position
/// inside `[1, N)`.
pub proof fn lemma_mix1_len(s: Seq<u64>, i: int, j: int, key: Seq<u32>, k: nat)
    requires
        s.len() == N,
        1 <= i < N,
    ensures
        mix1(s, i, j, key, k).0.len() == N,
        1 <= mix1(s, i, j, key, k).1 < N,
    decreases k,
{
    if k > 0 {
        let s1 = s.update(i, mix1_word(s[i], s[i - 1], key[j], j));
        let s2 = if i + 1 >= N {
            s1.update(0, s1[N - 1])
        } else {
            s1
        };
        let i2: int = if i + 1 >= N {
            1
        } else {
            i + 1
        };
        let j2: int = if j + 1 >= key.len() {
            0
        } else {
            j + 1
        };
        lemma_mix1_len(s2, i2, j2, key, (k - 1) as nat);
    }
}

/// The second mixing pass keeps the array length.
pub proof fn lemma_mix2_len(s: Seq<u64>, i: int, k: nat)
    requires
        s.len() == N,
        1 <= i < N,
    ensures
        mix2(s, i, k).0.len() == N,
        1 <= mix2(s, i, k).1 < N,
    decreases k,
{
    if k > 0 {
        let s1 = s.update(i, mix2_word(s[i], s[i - 1], i));
        let s2 = if i + 1 >= N {
            s1.update(0, s1[N - 1])
        } else {
            s1
        };
        let i2: int = if i + 1 >= N {
            1
        } else {
            i + 1
        };
        lemma_mix2_len(s2, i2, (k - 1) as nat);
    }
}

/// Non-degeneracy of integer seeding: for any seed whose low 32 bits are
/// nonzero, the seeded state array is not all zero — its first word is the
/// masked seed itself.  (A seed whose low 32 bits are all zero does yield
/// the all-zero array under this congruential recurrence, so such seeds
/// are excluded here.)
pub proof fn lemma_seeded_nonzero(seed: u64)
    requires
        seed & 0xffffffff != 0,
    ensures
        seeded(seed)[0] != 0,
        exists|i: int| 0 <= i < seeded(seed).len() && seeded(seed)[i] != 0,
{
    assert(seeded(seed)[0] == seed_word(seed, 0));
    assert(0 <= 0 < seeded(seed).len() && seeded(seed)[0] != 0);
}

/// Non-degeneracy of array seeding: whatever the key, the first word of
/// the array-seeded state is forced to the top bit, so the array is never
/// all zero.
pub proof fn lemma_array_seeded_nonzero(key: Seq<u32>)
    ensures
        array_seeded(key).len() == N,
        array_seeded(key)[0] == UPPER_MASK,
        exists|i: int| 0 <= i < array_seeded(key).len() && array_seeded(key)[i] != 0,
{
    let s0 = boot_seeded(BOOTSTRAP_SEED);
    let k1: nat = if key.len() > N {
        key.len()
    } else {
        N as nat
    };
    let m1 = mix1(s0, 1, 0, key, k1);
    lemma_mix1_len(s0, 1, 0, key, k1);
    lemma_mix2_len(m1.0, m1.1, (N - 1) as nat);
    assert(0 <= 0 < array_seeded(key).len() && array_seeded(key)[0] != 0);
}

} // verus!

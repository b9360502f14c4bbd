//! The simulation's only source of randomness.
//!
//! **xoshiro256++**, seeded by **SplitMix64**: short, fully specified
//! algorithms with public reference implementations, owned here so that a
//! dependency bump can never change a stream and a seed means the same thing
//! forever.
//!
//! [`Rng::state`] and [`Rng::set_state`] carry the *stream position*, not just
//! the seed: a save that restores the seed but not the position resumes a
//! different future.
//!
//! Every operation is integer arithmetic with wrapping semantics, so it is
//! bit-identical on any machine.

use vstd::prelude::*;

verus! {

/// The SplitMix64 increment, the golden ratio in 64 bits.
pub const GOLDEN_GAMMA: u64 = 0x9E37_79B9_7F4A_7C15;

/// Rotate a word left by `k` bits, `0 < k < 64`.
pub open spec fn rotl(x: u64, k: u64) -> u64 {
    (x << k) | (x >> ((64 - k) as u64))
}

/// SplitMix64's output mix for one counter value.
pub open spec fn splitmix_mix(z: u64) -> u64 {
    let x1 = (z ^ (z >> 30u64)).wrapping_mul(0xBF58_476D_1CE4_E5B9);
    let x2 = (x1 ^ (x1 >> 27u64)).wrapping_mul(0x94D0_49BB_1331_11EB);
    x2 ^ (x2 >> 31u64)
}

/// The `k`th SplitMix64 counter value after `seed` (counting from one).
pub open spec fn splitmix_counter(seed: u64, k: nat) -> u64
    decreases k,
{
    if k == 0 {
        seed
    } else {
        splitmix_counter(seed, (k - 1) as nat).wrapping_add(GOLDEN_GAMMA)
    }
}

/// The state a seed expands into: four SplitMix64 outputs in a row.
pub open spec fn seeded_state(seed: u64) -> Seq<u64> {
    seq![
        splitmix_mix(splitmix_counter(seed, 1)),
        splitmix_mix(splitmix_counter(seed, 2)),
        splitmix_mix(splitmix_counter(seed, 3)),
        splitmix_mix(splitmix_counter(seed, 4)),
    ]
}

/// The word xoshiro256++ produces from a state.
pub open spec fn xoshiro_output(s: Seq<u64>) -> u64 {
    rotl(s[0].wrapping_add(s[3]), 23).wrapping_add(s[0])
}

/// The state xoshiro256++ moves to after producing a word.
pub open spec fn xoshiro_next(s: Seq<u64>) -> Seq<u64> {
    let t = s[1] << 17u64;
    let s2 = s[2] ^ s[0];
    let s3 = s[3] ^ s[1];
    let s1 = s[1] ^ s2;
    let s0 = s[0] ^ s3;
    seq![s0, s1, s2 ^ t, rotl(s3, 45)]
}

/// The state after `n` draws.
pub open spec fn advanced(s: Seq<u64>, n: nat) -> Seq<u64>
    decreases n,
{
    if n == 0 {
        s
    } else {
        xoshiro_next(advanced(s, (n - 1) as nat))
    }
}

/// The `i`th word of the stream that starts at state `s`.
pub open spec fn stream(s: Seq<u64>, i: nat) -> u64 {
    xoshiro_output(advanced(s, i))
}

/// Where the unbiased rejection threshold for a bound of `n` sits:
/// `2^64 mod n`.
pub open spec fn rejection_threshold(n: u64) -> u64 {
    (0x1_0000_0000_0000_0000int % (n as int)) as u64
}

/// How many draws a bounded request for `n` starting at state `s` looks at
/// before it finds one at or above the threshold, searching at most `fuel`
/// draws. `None` when none of them qualifies.
pub open spec fn accepted_after(s: Seq<u64>, n: u64, fuel: nat) -> Option<nat>
    decreases fuel,
{
    if fuel == 0 {
        None
    } else if stream(s, 0) >= rejection_threshold(n) {
        Some(0)
    } else {
        match accepted_after(xoshiro_next(s), n, (fuel - 1) as nat) {
            Some(k) => Some(k + 1),
            None => None,
        }
    }
}

/// What a bounded request for `n` starting at state `s` answers, and the
/// state it leaves: the first draw at or above the rejection threshold, or the
/// last one looked at if none is.
pub open spec fn draw(s: Seq<u64>, n: u64) -> (u64, Seq<u64>) {
    match accepted_after(s, n, MAX_REJECTIONS as nat) {
        Some(k) => (stream(s, k) % n, advanced(s, k + 1)),
        None => (stream(s, (MAX_REJECTIONS - 1) as nat) % n, advanced(s, MAX_REJECTIONS as nat)),
    }
}

/// The largest number of draws one bounded request will examine.
///
/// Rejection happens with probability below one half per draw, so no real
/// stream ever comes near this: it exists so that the loop is finite by
/// construction rather than by a probability argument.
pub const MAX_REJECTIONS: u64 = 0xFFFF_FFFF_FFFF_FFFF;

/// The full internal state of an [`Rng`] — enough to resume a stream exactly.
#[derive(Debug, Clone, Copy, PartialEq, Eq)]
pub struct RngState(pub [u64; 4]);

/// A seeded, resumable pseudo-random generator. See the module docs.
#[derive(Debug, Clone)]
pub struct Rng {
    s: [u64; 4],
}

impl View for Rng {
    type V = Seq<u64>;

    /// The four words of state.
    closed spec fn view(&self) -> Seq<u64> {
        self.s@
    }
}

impl Rng {
    /// The state is always four words.
    pub proof fn lemma_len(&self)
        ensures
            self@.len() == 4,
    {
    }

    /// Expand a seed into a full state with SplitMix64, as the xoshiro authors
    /// specify.
    pub fn from_seed(seed: u64) -> (r: Rng)
        ensures
            r@ == seeded_state(seed),
    {
        let z1 = seed.wrapping_add(GOLDEN_GAMMA);
        let z2 = z1.wrapping_add(GOLDEN_GAMMA);
        let z3 = z2.wrapping_add(GOLDEN_GAMMA);
        let z4 = z3.wrapping_add(GOLDEN_GAMMA);
        reveal_with_fuel(splitmix_counter, 5);
        assert(z1 == splitmix_counter(seed, 1));
        assert(z2 == splitmix_counter(seed, 2));
        assert(z3 == splitmix_counter(seed, 3));
        assert(z4 == splitmix_counter(seed, 4));
        let s = [mix(z1), mix(z2), mix(z3), mix(z4)];
        let r = Rng { s };
        assert(r@ =~= seeded_state(seed));
        r
    }

    /// The next 64 random bits — the primitive every other method is built on.
    pub fn next_u64(&mut self) -> (x: u64)
        ensures
            x == xoshiro_output(old(self)@),
            final(self)@ == xoshiro_next(old(self)@),
    {
        let s0 = self.s[0];
        let s1 = self.s[1];
        let s2 = self.s[2];
        let s3 = self.s[3];
        let result = rotate_left(s0.wrapping_add(s3), 23).wrapping_add(s0);
        let t = s1 << 17u64;
        let n2 = s2 ^ s0;
        let n3 = s3 ^ s1;
        let n1 = s1 ^ n2;
        let n0 = s0 ^ n3;
        self.s = [n0, n1, n2 ^ t, rotate_left(n3, 45)];
        assert(self@ =~= xoshiro_next(old(self)@));
        result
    }

    /// A uniform integer in `[0, n)`, with the bias removed.
    ///
    /// Plain `next_u64() % n` is skewed toward small values whenever `n` does
    /// not divide 2⁶⁴. Draws below `2^64 mod n` are rejected and the next one
    /// is taken, which makes the distribution exact.
    pub fn next_bounded(&mut self, n: u64) -> (x: u64)
        requires
            n > 0,
        ensures
            x < n,
            (x, final(self)@) == draw(old(self)@, n),
    {
        // (2^64) mod n, computed without overflowing.
        let threshold = (u64::MAX - n + 1) % n;
        proof {
            let m = 0x1_0000_0000_0000_0000int;
            assert((m - n) % (n as int) == m % (n as int)) by (nonlinear_arith)
                requires
                    n > 0,
            ;
        }
        assert(threshold == rejection_threshold(n));
        let ghost start = self@;
        let mut tries: u64 = 0;
        let mut last: u64 = 0;
        while tries < MAX_REJECTIONS
            invariant
                start == old(self)@,
                threshold == rejection_threshold(n),
                n > 0,
                tries <= MAX_REJECTIONS,
                self@ == advanced(start, tries as nat),
                accepted_after(start, n, MAX_REJECTIONS as nat) == shift_accept(
                    accepted_after(self@, n, (MAX_REJECTIONS - tries) as nat),
                    tries as nat,
                ),
                last < n,
                tries > 0 ==> last == stream(start, (tries - 1) as nat) % n,
            decreases MAX_REJECTIONS - tries,
        {
            let ghost before = self@;
            let x = self.next_u64();
            proof {
                lemma_advanced_succ(start, tries as nat);
                lemma_accept_step(before, n, (MAX_REJECTIONS - tries) as nat);
            }
            proof {
                if x >= threshold {
                    assert(stream(before, 0) == x);
                    assert(accepted_after(before, n, (MAX_REJECTIONS - tries) as nat) == Some(0nat));
                    assert(stream(start, tries as nat) == x);
                }
            }
            let ghost k = tries as nat;
            tries = tries + 1;
            if x >= threshold {
                assert(accepted_after(start, n, MAX_REJECTIONS as nat) == Some(k));
                assert(self@ == advanced(start, k + 1));
                return x % n;
            }
            last = x % n;
        }
        proof {
            assert(accepted_after(self@, n, 0) is None);
            assert(accepted_after(start, n, MAX_REJECTIONS as nat) is None);
        }
        last
    }

    /// The current stream position. Persist this, not the seed.
    pub fn state(&self) -> (st: RngState)
        ensures
            st.0@ == self@,
    {
        RngState(self.s)
    }

    /// Resume a stream from a previously saved position.
    pub fn set_state(&mut self, state: RngState)
        ensures
            final(self)@ == state.0@,
    {
        self.s = state.0;
    }
}

/// A search that had already looked at `offset` draws.
pub open spec fn shift_accept(found: Option<nat>, offset: nat) -> Option<nat> {
    match found {
        Some(k) => Some(k + offset),
        None => None,
    }
}

proof fn lemma_advanced_succ(s: Seq<u64>, n: nat)
    ensures
        advanced(s, n + 1) == xoshiro_next(advanced(s, n)),
{
}

/// One step of the rejection search.
proof fn lemma_accept_step(s: Seq<u64>, n: u64, fuel: nat)
    requires
        fuel > 0,
    ensures
        accepted_after(s, n, fuel) == if stream(s, 0) >= rejection_threshold(n) {
            Some(0nat)
        } else {
            shift_accept(accepted_after(xoshiro_next(s), n, (fuel - 1) as nat), 1)
        },
{
}

/// Rotate a word left, `0 < k < 64`.
fn rotate_left(x: u64, k: u64) -> (r: u64)
    requires
        0 < k < 64,
    ensures
        r == rotl(x, k),
{
    (x << k) | (x >> (64 - k))
}

/// SplitMix64's output mix.
fn mix(z: u64) -> (r: u64)
    ensures
        r == splitmix_mix(z),
{
    let x1 = (z ^ (z >> 30u64)).wrapping_mul(0xBF58_476D_1CE4_E5B9);
    let x2 = (x1 ^ (x1 >> 27u64)).wrapping_mul(0x94D0_49BB_1331_11EB);
    x2 ^ (x2 >> 31u64)
}

proof fn lemma_xorshift_zero(z: u64, k: u64)
    requires
        0 < k < 64,
    ensures
        z ^ (z >> k) == 0 ==> z == 0,
{
    assert(z ^ (z >> k) == 0 ==> z == 0) by (bit_vector)
        requires
            0 < k < 64,
    ;
}

proof fn lemma_odd_product_zero(x: u64, c: u64)
    requires
        c & 1 == 1,
    ensures
        x.wrapping_mul(c) == 0 ==> x == 0,
{
    assert(x * c <= 0xFFFF_FFFF_FFFF_FFFFu64 * 0xFFFF_FFFF_FFFF_FFFFu64) by (nonlinear_arith)
        requires
            x <= 0xFFFF_FFFF_FFFF_FFFFu64,
            c <= 0xFFFF_FFFF_FFFF_FFFFu64,
    ;
    let wide: u128 = ((x as u128) * (c as u128)) as u128;
    assert(wide == x * c);
    assert(wide as u64 == 0 ==> x == 0) by (bit_vector)
        requires
            c & 1 == 1,
            wide == (x as u128) * (c as u128),
    ;
    assert(wide as u64 == (wide % 0x1_0000_0000_0000_0000u128) as u64) by (bit_vector);
    assert(x.wrapping_mul(c) == (wide % 0x1_0000_0000_0000_0000u128) as u64);
}

/// SplitMix64's mix sends only zero to zero.
proof fn lemma_mix_zero(z: u64)
    ensures
        splitmix_mix(z) == 0 ==> z == 0,
{
    let a = z ^ (z >> 30u64);
    let x1 = a.wrapping_mul(0xBF58_476D_1CE4_E5B9);
    let b = x1 ^ (x1 >> 27u64);
    let x2 = b.wrapping_mul(0x94D0_49BB_1331_11EB);
    assert(0xBF58_476D_1CE4_E5B9u64 & 1 == 1) by (bit_vector);
    assert(0x94D0_49BB_1331_11EBu64 & 1 == 1) by (bit_vector);
    lemma_xorshift_zero(x2, 31);
    lemma_odd_product_zero(b, 0x94D0_49BB_1331_11EB);
    lemma_xorshift_zero(x1, 27);
    lemma_odd_product_zero(a, 0xBF58_476D_1CE4_E5B9);
    lemma_xorshift_zero(z, 30);
}

/// A seeded generator never starts from the all-zero state, the one state
/// xoshiro256++ can never leave.
pub proof fn a_seeded_state_is_never_all_zero(seed: u64)
    ensures
        !(seeded_state(seed)[0] == 0 && seeded_state(seed)[1] == 0 && seeded_state(seed)[2] == 0
            && seeded_state(seed)[3] == 0),
{
    reveal_with_fuel(splitmix_counter, 3);
    let z1 = splitmix_counter(seed, 1);
    let z2 = splitmix_counter(seed, 2);
    lemma_mix_zero(z1);
    lemma_mix_zero(z2);
    assert(z2 == z1.wrapping_add(GOLDEN_GAMMA));
}

} // verus!

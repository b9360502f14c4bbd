//! Choosing your land: what the shelf of candidate postings is narrowed by.
//!
//! Changing size or climate keeps the same candidate seeds and re-derives them
//! under the new filter, so flipping from plains to taiga shows what that does
//! to land the player was already considering.

use crate::climate::ClimateId;
use crate::units::Metres;
use vstd::prelude::*;

verus! {

/// Substream identifier for the candidate shelf.
pub const SHELF_STREAM: u64 = 11;

/// The golden-ratio stride that spreads candidate seeds across the shelf.
pub const CANDIDATE_STRIDE: u64 = 0x9E37_79B9_7F4A_7C15;

/// The seed of candidate `index` on a shelf, from the shelf's own substream
/// seed (the master seed derived for [`SHELF_STREAM`]). A function of the two
/// alone, and independent of the filter: that is what makes "the same land
/// under a different sky" possible. Candidate `n` is always candidate `n`.
pub fn candidate_seed(shelf_seed: u64, index: usize) -> (r: u64)
    ensures
        r == shelf_seed ^ (((index as nat) * (CANDIDATE_STRIDE as nat)) % 0x1_0000_0000_0000_0000nat) as u64,
{
    shelf_seed ^ (index as u64).wrapping_mul(CANDIDATE_STRIDE)
}

/// How many candidates a shelf offers: enough that the choice is real, few
/// enough that every card can carry its picture and its numbers.
pub const SHELF_SIZE: usize = 6;

/// The map sizes on offer, smallest first, named in kilometres because that is
/// what a player can picture a lorry driving.
pub fn sizes() -> (r: [(&'static str, Metres); 3])
    ensures
        r@.len() == 3,
        r@[0].1 == Metres(6_000),
        r@[1].1 == Metres(10_000),
        r@[2].1 == Metres(16_000),
        r@[0].0@ == "Small"@,
        r@[1].0@ == "Standard"@,
        r@[2].0@ == "Large"@,
{
    [("Small", Metres(6_000)), ("Standard", Metres(10_000)), ("Large", Metres(16_000))]
}

/// What the player has narrowed the shelf to.
#[derive(Debug, Clone, Copy, PartialEq, Eq, Structural)]
pub struct ShelfFilter {
    pub extent: Metres,
    pub climate: ClimateId,
}

impl Default for ShelfFilter {
    /// The standard size, on the plains.
    fn default() -> (f: ShelfFilter)
        ensures
            f == (ShelfFilter { extent: Metres(10_000), climate: ClimateId::Plains }),
    {
        ShelfFilter { extent: Metres(10_000), climate: ClimateId::Plains }
    }
}

/// Multiplying by the stride is undone by multiplying by its inverse.
proof fn lemma_stride_undone(x: u64)
    ensures
        ((((x as nat * CANDIDATE_STRIDE as nat) % 0x1_0000_0000_0000_0000nat) as u64) as nat * 0xF1DE_83E1_9937_733Dnat)
            % 0x1_0000_0000_0000_0000nat == x,
{
    assert(x * CANDIDATE_STRIDE <= 0xFFFF_FFFF_FFFF_FFFFu64 * 0xFFFF_FFFF_FFFF_FFFFu64) by (nonlinear_arith)
        requires
            x <= 0xFFFF_FFFF_FFFF_FFFFu64,
            CANDIDATE_STRIDE <= 0xFFFF_FFFF_FFFF_FFFFu64,
    ;
    let wide: u128 = ((x as u128) * (CANDIDATE_STRIDE as u128)) as u128;
    assert(wide == x * CANDIDATE_STRIDE);
    let low: u64 = #[verifier::truncate] (wide as u64);
    assert(low == (wide % 0x1_0000_0000_0000_0000u128) as u64) by (bit_vector)
        requires
            low == wide as u64,
    ;
    let back: u128 = ((low as u128) * 0xF1DE_83E1_9937_733Du128) as u128;
    assert(low * 0xF1DE_83E1_9937_733Du64 <= 0xFFFF_FFFF_FFFF_FFFFu64 * 0xFFFF_FFFF_FFFF_FFFFu64) by (nonlinear_arith)
        requires
            low <= 0xFFFF_FFFF_FFFF_FFFFu64,
    ;
    assert(back == low * 0xF1DE_83E1_9937_733Du64);
    assert((back % 0x1_0000_0000_0000_0000u128) as u64 == x) by (bit_vector)
        requires
            wide == (x as u128) * 0x9E37_79B9_7F4A_7C15u128,
            low == wide as u64,
            back == (low as u128) * 0xF1DE_83E1_9937_733Du128,
    ;
}

/// Different candidates on one shelf never share a seed: the stride is odd,
/// so stepping by it never comes back round to a candidate already dealt.
pub proof fn candidates_on_a_shelf_are_distinct(shelf_seed: u64, i: usize, j: usize)
    requires
        i != j,
    ensures
        shelf_seed ^ (((i as nat) * (CANDIDATE_STRIDE as nat)) % 0x1_0000_0000_0000_0000nat) as u64 != shelf_seed
            ^ (((j as nat) * (CANDIDATE_STRIDE as nat)) % 0x1_0000_0000_0000_0000nat) as u64,
{
    let a = (((i as nat) * (CANDIDATE_STRIDE as nat)) % 0x1_0000_0000_0000_0000nat) as u64;
    let b = (((j as nat) * (CANDIDATE_STRIDE as nat)) % 0x1_0000_0000_0000_0000nat) as u64;
    lemma_stride_undone(i as u64);
    lemma_stride_undone(j as u64);
    assert(shelf_seed ^ a == shelf_seed ^ b ==> a == b) by (bit_vector);
}

} // verus!

//! Deterministic per-frame seed derivation for synthetic dataset generation.

use vstd::prelude::*;

use rand::SeedableRng;
use rand_chacha::ChaCha8Rng;

use crate::dataset::DatasetSplit;

verus! {

/// The SplitMix64 finaliser applied to `value`, over 64-bit wrapping arithmetic.
pub open spec fn spec_splitmix64(value: u64) -> u64 {
    let v = vstd::wrapping::u64_specs::wrapping_add(value, 0x9E37_79B9_7F4A_7C15u64);
    let z1 = vstd::wrapping::u64_specs::wrapping_mul(v ^ (v >> 30u64), 0xBF58_476D_1CE4_E5B9u64);
    let z2 = vstd::wrapping::u64_specs::wrapping_mul(z1 ^ (z1 >> 27u64), 0x94D0_49BB_1331_11EBu64);
    z2 ^ (z2 >> 31u64)
}

/// SplitMix64 mixing of a 64-bit value.
pub fn splitmix64(value: u64) -> (r: u64)
    ensures
        r == spec_splitmix64(value),
{
    let v = value.wrapping_add(0x9E37_79B9_7F4A_7C15);
    let mut z = v;
    z = (z ^ (z >> 30)).wrapping_mul(0xBF58_476D_1CE4_E5B9);
    z = (z ^ (z >> 27)).wrapping_mul(0x94D0_49BB_1331_11EB);
    z ^ (z >> 31)
}

/// Per-split mixing constant.
pub open spec fn split_mix(split: DatasetSplit) -> u64 {
    match split {
        DatasetSplit::Train => 0xA8D0_5B9D_3A2F_8C01u64,
        DatasetSplit::Val => 0x17C5_841A_72B4_41EDu64,
        DatasetSplit::Test => 0xE7F1_AA93_81CC_5D2Bu64,
    }
}

/// Seed of frame `frame_index` of `split` under `global_seed`.
pub open spec fn spec_frame_seed(global_seed: u64, split: DatasetSplit, frame_index: u64) -> u64 {
    spec_splitmix64(
        global_seed ^ split_mix(split) ^ vstd::wrapping::u64_specs::wrapping_mul(
            frame_index,
            0x9E37_79B9u64,
        ),
    )
}

/// Derives deterministic per-frame seeds from one global seed.
#[derive(Debug, Clone, Copy)]
pub struct SeedDeriver {
    global_seed: u64,
}

/// `rand_chacha::ChaCha8Rng`, handed out opaque.
#[verifier::external_type_specification]
#[verifier::external_body]
pub struct ExChaCha8Rng(ChaCha8Rng);

/// The ChaCha8 generator that `ChaCha8Rng::seed_from_u64` builds from `seed`.
/// Seeding is deterministic (PCG32 expands the seed into the ChaCha key), so
/// equal seeds give equal generators; the state itself is opaque here.
pub uninterp spec fn chacha8_seeded(seed: u64) -> ChaCha8Rng;

/// `rand_core::SeedableRng::seed_from_u64` for `ChaCha8Rng`: the generator
/// named `chacha8_seeded(seed)`.
#[verifier::external_body]
fn chacha8_from_seed(seed: u64) -> (r: ChaCha8Rng)
    ensures
        r == chacha8_seeded(seed),
{
    ChaCha8Rng::seed_from_u64(seed)
}

impl SeedDeriver {
    /// The global seed this deriver was built from.
    pub closed spec fn seed(self) -> u64 {
        self.global_seed
    }

    /// A deriver for `global_seed`.
    pub fn new(global_seed: u64) -> (r: SeedDeriver)
        ensures
            r.seed() == global_seed,
    {
        SeedDeriver { global_seed }
    }

    /// The seed of frame `frame_index` of `split`.
    pub fn frame_seed(&self, split: DatasetSplit, frame_index: usize) -> (r: u64)
        ensures
            r == spec_frame_seed(self.seed(), split, frame_index as u64),
    {
        let split_mix: u64 = match split {
            DatasetSplit::Train => 0xA8D0_5B9D_3A2F_8C01,
            DatasetSplit::Val => 0x17C5_841A_72B4_41ED,
            DatasetSplit::Test => 0xE7F1_AA93_81CC_5D2B,
        };
        splitmix64(self.global_seed ^ split_mix ^ (frame_index as u64).wrapping_mul(0x9E37_79B9))
    }

    /// A ChaCha8 generator seeded with the frame's seed.
    pub fn frame_rng(&self, split: DatasetSplit, frame_index: usize) -> (r: ChaCha8Rng)
        ensures
            r == chacha8_seeded(spec_frame_seed(self.seed(), split, frame_index as u64)),
    {
        chacha8_from_seed(self.frame_seed(split, frame_index))
    }
}

// ---------------------------------------------------------------------------
// Injectivity of the derivation
// ---------------------------------------------------------------------------

/// `x ^ (x >> k)` determines `x`.
proof fn lemma_xorshift_injective(a: u64, b: u64, k: u64)
    by (bit_vector)
    requires
        1 <= k < 64,
        a ^ (a >> k) == b ^ (b >> k),
    ensures
        a == b,
{
}

/// Multiplying by `c` modulo 2^64 is undone by multiplying by `c_inv` when
/// `c * c_inv` is 1 modulo 2^64.
proof fn lemma_wrapping_mul_cancel(x: u64, c: u64, c_inv: u64)
    requires
        (c as int * c_inv as int) % 0x1_0000_0000_0000_0000int == 1,
    ensures
        vstd::wrapping::u64_specs::wrapping_mul(vstd::wrapping::u64_specs::wrapping_mul(x, c), c_inv) == x,
{
    let m: int = 0x1_0000_0000_0000_0000int;
    let xc: int = x as int * c as int;
    assert(vstd::wrapping::u64_specs::wrapping_mul(x, c) as int == xc % m);
    vstd::arithmetic::div_mod::lemma_mul_mod_noop_left(xc, c_inv as int, m);
    vstd::arithmetic::mul::lemma_mul_is_associative(x as int, c as int, c_inv as int);
    vstd::arithmetic::div_mod::lemma_mul_mod_noop_right(x as int, c as int * c_inv as int, m);
    assert(x as int * 1 == x as int);
    vstd::arithmetic::div_mod::lemma_small_mod(x as nat, m as nat);
}

/// Multiplication modulo 2^64 by an invertible constant is one-to-one.
proof fn lemma_wrapping_mul_injective(a: u64, b: u64, c: u64, c_inv: u64)
    requires
        (c as int * c_inv as int) % 0x1_0000_0000_0000_0000int == 1,
        vstd::wrapping::u64_specs::wrapping_mul(a, c) == vstd::wrapping::u64_specs::wrapping_mul(b, c),
    ensures
        a == b,
{
    lemma_wrapping_mul_cancel(a, c, c_inv);
    lemma_wrapping_mul_cancel(b, c, c_inv);
}

/// SplitMix64 is one-to-one on 64-bit values: distinct inputs give
/// distinct outputs.
pub proof fn lemma_splitmix64_injective(a: u64, b: u64)
    ensures
        a != b ==> spec_splitmix64(a) != spec_splitmix64(b),
{
    if spec_splitmix64(a) == spec_splitmix64(b) {
        let c1: u64 = 0xBF58_476D_1CE4_E5B9u64;
        let c2: u64 = 0x94D0_49BB_1331_11EBu64;
        assert((c1 as int * 0x96de_1b17_3f11_9089int) % 0x1_0000_0000_0000_0000int == 1);
        assert((c2 as int * 0x3196_42b2_d24d_8ec3int) % 0x1_0000_0000_0000_0000int == 1);
        let va = vstd::wrapping::u64_specs::wrapping_add(a, 0x9E37_79B9_7F4A_7C15u64);
        let vb = vstd::wrapping::u64_specs::wrapping_add(b, 0x9E37_79B9_7F4A_7C15u64);
        let ya = vstd::wrapping::u64_specs::wrapping_mul(va ^ (va >> 30u64), c1);
        let yb = vstd::wrapping::u64_specs::wrapping_mul(vb ^ (vb >> 30u64), c1);
        let za = vstd::wrapping::u64_specs::wrapping_mul(ya ^ (ya >> 27u64), c2);
        let zb = vstd::wrapping::u64_specs::wrapping_mul(yb ^ (yb >> 27u64), c2);
        lemma_xorshift_injective(za, zb, 31);
        lemma_wrapping_mul_injective(ya ^ (ya >> 27u64), yb ^ (yb >> 27u64), c2, 0x3196_42b2_d24d_8ec3u64);
        lemma_xorshift_injective(ya, yb, 27);
        lemma_wrapping_mul_injective(va ^ (va >> 30u64), vb ^ (vb >> 30u64), c1, 0x96de_1b17_3f11_9089u64);
        lemma_xorshift_injective(va, vb, 30);
    }
}

/// Frame seeds tell global seeds apart: for any split and index, two
/// derivers give the same frame seed exactly when their global seeds agree.
pub proof fn lemma_frame_seed_injective_in_global(g1: u64, g2: u64, split: DatasetSplit, frame_index: u64)
    ensures
        spec_frame_seed(g1, split, frame_index) == spec_frame_seed(g2, split, frame_index) <==> g1 == g2,
{
    let t = vstd::wrapping::u64_specs::wrapping_mul(frame_index, 0x9E37_79B9u64);
    let m = split_mix(split);
    lemma_splitmix64_injective(g1 ^ m ^ t, g2 ^ m ^ t);
    assert(g1 ^ m ^ t == g2 ^ m ^ t ==> g1 == g2) by (bit_vector);
}

/// Distinct frame indices of one split get distinct seeds.
pub proof fn lemma_frame_seed_distinct_indices(global_seed: u64, split: DatasetSplit, i: u64, j: u64)
    ensures
        i != j ==> spec_frame_seed(global_seed, split, i) != spec_frame_seed(global_seed, split, j),
{
    let ti = vstd::wrapping::u64_specs::wrapping_mul(i, 0x9E37_79B9u64);
    let tj = vstd::wrapping::u64_specs::wrapping_mul(j, 0x9E37_79B9u64);
    let g = global_seed;
    let m = split_mix(split);
    if spec_frame_seed(global_seed, split, i) == spec_frame_seed(global_seed, split, j) {
        lemma_splitmix64_injective(g ^ m ^ ti, g ^ m ^ tj);
        assert(g ^ m ^ ti == g ^ m ^ tj ==> ti == tj) by (bit_vector);
        assert((0x9E37_79B9int * 0xe85e_e980_144c_bc89int) % 0x1_0000_0000_0000_0000int == 1);
        lemma_wrapping_mul_injective(i, j, 0x9E37_79B9u64, 0xe85e_e980_144c_bc89u64);
    }
}

/// The same frame index in distinct splits gets distinct seeds.
pub proof fn lemma_frame_seed_distinct_splits(global_seed: u64, s1: DatasetSplit, s2: DatasetSplit, frame_index: u64)
    ensures
        s1 != s2 ==> spec_frame_seed(global_seed, s1, frame_index) != spec_frame_seed(global_seed, s2, frame_index),
{
    let t = vstd::wrapping::u64_specs::wrapping_mul(frame_index, 0x9E37_79B9u64);
    let g = global_seed;
    let (m1, m2) = (split_mix(s1), split_mix(s2));
    if spec_frame_seed(global_seed, s1, frame_index) == spec_frame_seed(global_seed, s2, frame_index) {
        lemma_splitmix64_injective(g ^ m1 ^ t, g ^ m2 ^ t);
        assert(g ^ m1 ^ t == g ^ m2 ^ t ==> m1 == m2) by (bit_vector);
    }
}

} // verus!

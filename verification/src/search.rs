pub mod search_common;
pub mod ac_cpu;
pub mod pairing;
pub mod pfac_common;
pub mod pfac_cpu;
pub mod recognition;

use vstd::prelude::*;
use vstd::arithmetic::div_mod::{lemma_add_mod_noop, lemma_div_denominator, lemma_mod_breakdown, lemma_mul_mod_noop_right};
use vstd::arithmetic::power2::{lemma2_to64, lemma_pow2_pos, lemma_pow2_unfold, pow2};

verus! {

/// FNV-1a offset basis.
pub const FNV_OFFSET_BASIS: u64 = 0xcbf29ce484222325;

/// FNV-1a prime.
pub const FNV_PRIME: u64 = 0x100000001b3;

/// One FNV-1a round: xor the value into the hash, then multiply by the prime modulo 2^64.
pub open spec fn fnv_step(hash: u64, value: u64) -> u64 {
    vstd::wrapping::u64_specs::wrapping_mul(hash ^ value, FNV_PRIME)
}

/// The FNV-1a hash of a sequence of byte values.
pub open spec fn spec_hash_u8(s: Seq<u8>) -> u64
    decreases s.len(),
{
    if s.len() == 0 {
        FNV_OFFSET_BASIS
    } else {
        fnv_step(spec_hash_u8(s.drop_last()), s.last() as u64)
    }
}

/// The FNV-1a hash of a sequence of 16-bit values.
pub open spec fn spec_hash_u16(s: Seq<u16>) -> u64
    decreases s.len(),
{
    if s.len() == 0 {
        FNV_OFFSET_BASIS
    } else {
        fnv_step(spec_hash_u16(s.drop_last()), s.last() as u64)
    }
}

/// A result from searching: a start and end index (both inclusive, relative to the start of the
/// searched data) and an id, the FNV-1a hash of the values of the pattern that matched.
#[derive(Debug, PartialEq, Clone, Copy)]
pub struct Match {
    pub id: u64,
    pub start_idx: u64,
    pub end_idx: u64,
}

impl Match {
    /// Creates a match record with the given id, start index and end index.
    pub fn new(id: u64, start_idx: u64, end_idx: u64) -> (m: Self)
        ensures
            m.id == id,
            m.start_idx == start_idx,
            m.end_idx == end_idx,
    {
        Match { id, start_idx, end_idx }
    }
}

/// Returns the initial FNV-1a value, from which a hash is built with `match_id_hash_add`.
pub fn match_id_hash_init() -> (h: u64)
    ensures
        h == FNV_OFFSET_BASIS,
        h == spec_hash_u8(Seq::empty()),
        h == spec_hash_u16(Seq::empty()),
{
    FNV_OFFSET_BASIS
}

/// Adds a byte value into an FNV-1a hash and returns the new hash.
pub fn match_id_hash_add(hash: u64, new_value: u8) -> (h: u64)
    ensures
        h == fnv_step(hash, new_value as u64),
{
    (hash ^ (new_value as u64)).wrapping_mul(FNV_PRIME)
}

/// Adds a 16-bit value into an FNV-1a hash and returns the new hash.
pub fn match_id_hash_add_u16(hash: u64, new_value: u16) -> (h: u64)
    ensures
        h == fnv_step(hash, new_value as u64),
{
    (hash ^ (new_value as u64)).wrapping_mul(FNV_PRIME)
}

/// The FNV-1a hash of a byte slice.
pub fn match_id_hash_slice(slice: &[u8]) -> (h: u64)
    ensures
        h == spec_hash_u8(slice@),
{
    let mut hash = match_id_hash_init();
    let mut i: usize = 0;
    while i < slice.len()
        invariant
            i <= slice.len(),
            hash == spec_hash_u8(slice@.take(i as int)),
        decreases slice.len() - i,
    {
        assert(slice@.take(i + 1).drop_last() =~= slice@.take(i as int));
        hash = match_id_hash_add(hash, slice[i]);
        i += 1;
    }
    assert(slice@.take(i as int) =~= slice@);
    hash
}

/// The FNV-1a hash of a slice of 16-bit values.
pub fn match_id_hash_slice_u16(slice: &[u16]) -> (h: u64)
    ensures
        h == spec_hash_u16(slice@),
{
    let mut hash = match_id_hash_init();
    let mut i: usize = 0;
    while i < slice.len()
        invariant
            i <= slice.len(),
            hash == spec_hash_u16(slice@.take(i as int)),
        decreases slice.len() - i,
    {
        assert(slice@.take(i + 1).drop_last() =~= slice@.take(i as int));
        hash = match_id_hash_add_u16(hash, slice[i]);
        i += 1;
    }
    assert(slice@.take(i as int) =~= slice@);
    hash
}

/// The 8-bit and 16-bit hashes agree: hashing bytes gives the same id as hashing the same
/// values widened to 16 bits.
pub proof fn lemma_hash_widening(s: Seq<u8>)
    ensures
        spec_hash_u16(s.map_values(|b: u8| b as u16)) == spec_hash_u8(s),
    decreases s.len(),
{
    if s.len() > 0 {
        lemma_hash_widening(s.drop_last());
        assert(s.map_values(|b: u8| b as u16).drop_last() =~= s.drop_last().map_values(
            |b: u8| b as u16,
        ));
    }
}

/// 2^64, the modulus of `u64` arithmetic.
pub open spec fn modulus_u64() -> int {
    0x1_0000_0000_0000_0000int
}

/// After `k` rounds of the shift-and-add product of `x0` and `y0`: the remaining multiplier
/// bits, the shifted multiplicand and the accumulated partial product.
pub open spec fn clmul_round(x0: u64, y0: u64, k: nat, x: u64, y: u64, accum: u64) -> bool {
    &&& x as int == x0 as int / pow2(k) as int
    &&& y as int == (y0 as int * pow2(k) as int) % modulus_u64()
    &&& accum as int == ((x0 as int % pow2(k) as int) * y0 as int) % modulus_u64()
}

proof fn lemma_clmul_round(x0: u64, y0: u64, k: nat, x: u64, y: u64, accum: u64)
    requires
        clmul_round(x0, y0, k, x, y, accum),
    ensures
        (x / 2) as int == x0 as int / pow2(k + 1) as int,
        (2 * y) % modulus_u64() == (y0 as int * pow2(k + 1) as int) % modulus_u64(),
        (if x % 2 == 1 {
            (accum + y) % modulus_u64()
        } else {
            accum as int
        }) == ((x0 as int % pow2(k + 1) as int) * y0 as int) % modulus_u64(),
{
    let m = modulus_u64();
    let p = pow2(k) as int;
    lemma_pow2_pos(k);
    lemma_pow2_unfold(k + 1);
    assert(pow2(k + 1) as int == p * 2);
    lemma_div_denominator(x0 as int, p, 2);
    lemma_mod_breakdown(x0 as int, p, 2);
    let bit = (x0 as int / p) % 2;
    assert(bit == x % 2);
    let a = (x0 as int % p) * y0;
    let b = p * y0;
    assert((x0 as int % (p * 2)) * y0 == bit * b + a) by (nonlinear_arith)
        requires
            x0 as int % (p * 2) == p * bit + x0 as int % p,
            a == (x0 as int % p) * y0,
            b == p * y0,
    ;
    lemma_mul_mod_noop_right(2, y0 as int * p, m);
    assert(2 * (y0 as int * p) == y0 as int * (p * 2)) by (nonlinear_arith);
    if bit == 1 {
        lemma_add_mod_noop(a, b, m);
        assert(b == y0 as int * p) by (nonlinear_arith)
            requires
                b == p * y0,
        ;
    } else {
        assert(bit == 0);
        assert(bit * b == 0);
    }
}

/// The product of `x` and `y` modulo 2^64, by shifting and adding: each set bit of `x` adds the
/// correspondingly shifted `y`.
pub fn clmul(x: u64, y: u64) -> (r: u64)
    ensures
        r == vstd::wrapping::u64_specs::wrapping_mul(x, y),
        r as int == (x as int * y as int) % modulus_u64(),
{
    let ghost x0 = x;
    let ghost y0 = y;
    let mut x = x;
    let mut y = y;
    let mut accum: u64 = 0;
    proof {
        lemma2_to64();
        assert(x0 as int % 1 == 0) by (nonlinear_arith);
        assert(x0 as int / 1 == x0) by (nonlinear_arith);
        assert((y0 as int * 1) % modulus_u64() == y0) by (nonlinear_arith)
            requires
                0 <= y0 < modulus_u64(),
        ;
        assert(0int * y0 % modulus_u64() == 0) by (nonlinear_arith);
    }
    let mut k: u32 = 0;
    while k < 64
        invariant
            k <= 64,
            clmul_round(x0, y0, k as nat, x, y, accum),
        decreases 64 - k,
    {
        proof {
            lemma_clmul_round(x0, y0, k as nat, x, y, accum);
        }
        assert((x & 1 == 1) == (x % 2 == 1)) by (bit_vector);
        if x & 1 == 1 {
            accum = accum.wrapping_add(y);
        }
        assert((x >> 1u64) as int == x / 2) by (bit_vector);
        x >>= 1;
        assert(x ^ (x & (1u64 << 63u64)) == x) by (bit_vector)
            requires
                x < 0x8000_0000_0000_0000u64,
        ;
        x ^= x & (1u64 << 63u64);
        assert((y << 1u64) as int == (2 * y) % 0x1_0000_0000_0000_0000int) by (bit_vector);
        y <<= 1;
        assert(y ^ (y & 1) == y) by (bit_vector)
            requires
                y % 2 == 0,
        ;
        y ^= y & 1;
        k += 1;
    }
    assert(x0 as int % pow2(64) as int == x0);
    accum
}

} // verus!

//! The coordinate hash: a seed and two integer coordinates give a fraction in
//! `[0, 1)`, returned as its numerator over [`HASH_MODULUS`].

use std::collections::hash_map::DefaultHasher;
use std::hash::Hasher;
use vstd::bytes::{spec_u32_to_le_bytes, spec_u64_to_le_bytes, u32_to_le_bytes, u64_to_le_bytes};
use vstd::prelude::*;
use vstd::std_specs::hash::DefaultHasherAdditionalSpecFns;

verus! {

/// The digest is reduced modulo this value, which is also the denominator of
/// the resulting fraction.
pub const HASH_MODULUS: u64 = 255;

/// The eight bytes that stand for a seed in the hashed stream.
pub open spec fn seed_bytes(seed: i64) -> Seq<u8> {
    spec_u64_to_le_bytes(seed as u64)
}

/// The four bytes that stand for one coordinate in the hashed stream.
pub open spec fn coord_bytes(c: i32) -> Seq<u8> {
    spec_u32_to_le_bytes(c as u32)
}

/// The 64-bit digest of `(seed, x, y)`: the seed is written first, then `x`,
/// then `y`.
pub open spec fn digest(seed: i64, x: i32, y: i32) -> u64 {
    DefaultHasher::spec_finish(seq![seed_bytes(seed), coord_bytes(x), coord_bytes(y)])
}

/// The numerator of the hash fraction: the digest modulo [`HASH_MODULUS`].
pub open spec fn hash_numerator(seed: i64, x: i32, y: i32) -> int {
    (digest(seed, x, y) % HASH_MODULUS) as int
}

/// Hashes `(seed, x, y)` to the fraction `n / 255`, and returns `n`.
///
/// The result is a function of the three arguments alone, and the fraction
/// lies in `[0, 1)`.
pub fn hash(seed: i64, x: i32, y: i32) -> (n: u8)
    ensures
        n == hash_numerator(seed, x, y),
        n < HASH_MODULUS,
{
    let mut hasher = DefaultHasher::new();
    let seed_part = u64_to_le_bytes(seed as u64);
    hasher.write(seed_part.as_slice());
    let x_part = u32_to_le_bytes(x as u32);
    hasher.write(x_part.as_slice());
    let y_part = u32_to_le_bytes(y as u32);
    hasher.write(y_part.as_slice());
    let d: u64 = hasher.finish();
    assert(hasher@ =~= seq![seed_bytes(seed), coord_bytes(x), coord_bytes(y)]);
    (d % HASH_MODULUS) as u8
}

} // verus!

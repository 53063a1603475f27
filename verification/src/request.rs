//! Tile requests and their validation.

use vstd::arithmetic::power2::{lemma_pow2_pos, lemma_pow2_unfold, pow2};
use vstd::prelude::*;

verus! {

/// Why a request was turned down.
#[derive(Debug, Clone, Copy, PartialEq, Eq, Structural)]
pub enum GenError {
    /// The image size is not one more than a power of two.
    InvalidSize,
}

/// One tile to generate.
#[derive(Debug, Clone, Copy, PartialEq, Eq)]
pub struct TileRequest {
    /// Where the tile lies in the unbounded tile grid.
    pub position: (i32, i32),
    /// The seed that every hash of this tile starts from.
    pub seed: i64,
    /// The jitter amplitude of the coarsest level, as the bit pattern of a
    /// single-precision float. The library carries it and never reads it.
    pub roughness_bits: u32,
    /// The edge length of the tile in cells.
    pub image_size: u32,
}

/// An edge length is valid when it is `2^k + 1` for some `k`.
pub open spec fn valid_size(n: int) -> bool {
    exists|k: nat| n == #[trigger] pow2(k) + 1
}

/// An odd number above one, times a power of two, is no power of two.
proof fn lemma_odd_multiple_is_no_power(c: int, k: nat, j: nat)
    requires
        c >= 3,
        c % 2 == 1,
    ensures
        c * pow2(k) != pow2(j),
    decreases k,
{
    lemma_pow2_pos(k);
    lemma_pow2_pos(j);
    if k == 0 {
        assert(pow2(0) == 1) by {
            lemma_pow2_unfold(1);
            vstd::arithmetic::power2::lemma2_to64();
        }
        if j > 0 {
            lemma_pow2_unfold(j);
        }
    } else {
        lemma_pow2_unfold(k);
        assert(c * pow2(k) == 2 * (c * pow2((k - 1) as nat))) by (nonlinear_arith)
            requires
                pow2(k) == 2 * pow2((k - 1) as nat),
        ;
        if j == 0 {
            vstd::arithmetic::power2::lemma2_to64();
            lemma_pow2_pos((k - 1) as nat);
            assert(c * pow2((k - 1) as nat) >= 3) by (nonlinear_arith)
                requires
                    c >= 3,
                    pow2((k - 1) as nat) >= 1,
            ;
        } else {
            lemma_pow2_unfold(j);
            lemma_odd_multiple_is_no_power(c, (k - 1) as nat, (j - 1) as nat);
        }
    }
}

/// Checks an edge length and returns the number of refinement levels it
/// takes: the `k` with `image_size == 2^k + 1`.
///
/// Every other length, 0 and 1 among them, is `InvalidSize`.
pub fn refinement_levels(image_size: u32) -> (r: Result<u32, GenError>)
    ensures
        r is Ok <==> valid_size(image_size as int),
        r matches Ok(k) ==> image_size == pow2(k as nat) + 1 && k <= 31,
        r matches Err(e) ==> e == GenError::InvalidSize,
{
    if image_size < 2 {
        assert forall|k: nat| image_size != #[trigger] pow2(k) + 1 by {
            lemma_pow2_pos(k);
        }
        return Err(GenError::InvalidSize);
    }
    let mut rest: u32 = image_size - 1;
    let mut levels: u32 = 0;
    proof {
        vstd::arithmetic::power2::lemma2_to64();
    }
    while rest % 2 == 0
        invariant
            rest >= 1,
            image_size - 1 == rest * pow2(levels as nat),
            levels <= 31,
        decreases rest,
    {
        proof {
            lemma_pow2_unfold((levels + 1) as nat);
            lemma_pow2_pos(levels as nat);
            let half = (rest / 2) as int;
            let p = pow2(levels as nat) as int;
            assert(half * (2 * p) == rest * p) by (nonlinear_arith)
                requires
                    rest == 2 * half,
            ;
            if levels == 31 {
                vstd::arithmetic::power2::lemma2_to64();
                assert(rest * p >= 2 * p) by (nonlinear_arith)
                    requires
                        rest >= 2,
                        p >= 0,
                ;
            }
        }
        rest = rest / 2;
        levels = levels + 1;
    }
    if rest == 1 {
        assert(image_size == pow2(levels as nat) + 1);
        Ok(levels)
    } else {
        assert forall|k: nat| image_size != #[trigger] pow2(k) + 1 by {
            lemma_odd_multiple_is_no_power(rest as int, levels as nat, k);
        }
        Err(GenError::InvalidSize)
    }
}

/// The edge length with the given number of refinement levels:
/// `2^exponent + 1`, or `None` where that does not fit the size's type.
pub fn image_size_for(exponent: u32) -> (size: Option<u32>)
    ensures
        size is Some <==> exponent <= 31,
        size matches Some(n) ==> n == pow2(exponent as nat) + 1 && valid_size(n as int),
{
    if exponent > 31 {
        return None;
    }
    let mut power: u32 = 1;
    let mut done: u32 = 0;
    proof {
        vstd::arithmetic::power2::lemma2_to64();
    }
    while done < exponent
        invariant
            done <= exponent <= 31,
            power == pow2(done as nat),
        decreases exponent - done,
    {
        proof {
            lemma_pow2_unfold((done + 1) as nat);
            vstd::arithmetic::power2::lemma_pow2_strictly_increases(done as nat, 31);
            vstd::arithmetic::power2::lemma2_to64();
        }
        power = power * 2;
        done = done + 1;
    }
    proof {
        if exponent < 31 {
            vstd::arithmetic::power2::lemma_pow2_strictly_increases(exponent as nat, 31);
        }
        vstd::arithmetic::power2::lemma2_to64();
    }
    Some(power + 1)
}

} // verus!

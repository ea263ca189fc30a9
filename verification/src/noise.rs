//! Coherent-noise hashing.
//!
//! Procedural textures (value noise and gradient noise) need a reproducible
//! pseudo-random value at each integer lattice point. This hash maps a lattice
//! coordinate and a seed to an integer; repeated evaluation at the same
//! coordinate with the same seed is bit-reproducible, which the texture model
//! relies on. The application divides the result by the integer maximum to
//! obtain a real number in `[-1, 1]`.

use vstd::prelude::*;

verus! {

pub const NOISE_MIX_X: i64 = 0x369E6D3B899E43CF;

pub const NOISE_MIX_Y: i64 = 0x53F89E7FFDA3B07D;

pub const NOISE_MIX_Z: i64 = 0x3B13C1CA4937E629;

pub const NOISE_MIX_SEED: i64 = 0x577C2C6E4019D645;

pub const NOISE_SCRAMBLE_CUBE: i64 = 60493;

pub const NOISE_SCRAMBLE_LINEAR: i64 = 19990303;

pub const NOISE_SCRAMBLE_OFFSET: i64 = 1376312589;

/// The lattice hash: mix the coordinates and the seed with large odd
/// multipliers, fold the high bits over the low bits, then scramble with a
/// cubic polynomial, all in wrapping arithmetic.
pub open spec fn noise_hash(x: i64, y: i64, z: i64, seed: i64) -> i64 {
    let mixed = NOISE_MIX_X.wrapping_mul(x).wrapping_add(NOISE_MIX_Y.wrapping_mul(y)).wrapping_add(
        NOISE_MIX_Z.wrapping_mul(z),
    ).wrapping_add(NOISE_MIX_SEED.wrapping_mul(seed));
    let folded = (mixed >> 13) ^ mixed;
    folded.wrapping_mul(
        folded.wrapping_mul(folded).wrapping_mul(NOISE_SCRAMBLE_CUBE).wrapping_add(
            NOISE_SCRAMBLE_LINEAR,
        ),
    ).wrapping_add(NOISE_SCRAMBLE_OFFSET)
}

/// Generates an integer in the range `[i64::MIN, i64::MAX]`: exactly the
/// value of `noise_hash`, so equal inputs give bit-equal outputs.
pub fn integer(x: i64, y: i64, z: i64, seed: i64) -> (r: i64)
    ensures
        r == noise_hash(x, y, z, seed),
{
    let mixed = NOISE_MIX_X.wrapping_mul(x).wrapping_add(NOISE_MIX_Y.wrapping_mul(y)).wrapping_add(
        NOISE_MIX_Z.wrapping_mul(z),
    ).wrapping_add(NOISE_MIX_SEED.wrapping_mul(seed));
    let folded = (mixed >> 13u32) ^ mixed;
    folded.wrapping_mul(
        folded.wrapping_mul(folded).wrapping_mul(NOISE_SCRAMBLE_CUBE).wrapping_add(
            NOISE_SCRAMBLE_LINEAR,
        ),
    ).wrapping_add(NOISE_SCRAMBLE_OFFSET)
}

} // verus!

//! Uniform samples in the unit sphere and the unit disk, by rejection.
//!
//! The random bits come from the `rand` crate through one trusted wrapper;
//! everything built on top of it is verified for every value the wrapper
//! can return.

use vstd::prelude::*;

use crate::fixed::FX_ONE;
use crate::geometry::{bounded3, rsq, Vector3};

verus! {

/// Relies on `rand::random::<u16>`: sixteen uniform random bits.  Whatever
/// is drawn, the result read as a fixed-point scalar lies in `[0, 1)`.
#[verifier::external_body]
fn random_unit_fx() -> (r: i128)
    ensures
        0 <= r < FX_ONE,
{
    rand::random::<u16>() as i128
}

/// A uniform random fixed-point scalar in `[0, 1)`, for callers that need
/// one draw: jitter, or a stochastic branch.
pub fn random_fx() -> (r: i128)
    ensures
        0 <= r < FX_ONE,
{
    random_unit_fx()
}

/// A point drawn uniformly from the open unit sphere, by rejection: draw a
/// point of the cube `[-1, 1)^3` and keep it if it lies strictly inside the
/// sphere.  Each try accepts with probability about one half; after a
/// generous number of failed tries the center is returned, so the function
/// provably terminates.
pub fn random_in_unit_sphere() -> (p: Vector3)
    ensures
        bounded3(p@, FX_ONE as int),
        rsq(p@) < FX_ONE * FX_ONE,
{
    let mut tries: u32 = 0;
    while tries < 1000
        invariant
            true,
        decreases 1000 - tries,
    {
        let p = Vector3::new(
            2 * random_unit_fx() - FX_ONE,
            2 * random_unit_fx() - FX_ONE,
            2 * random_unit_fx() - FX_ONE,
        );
        proof {
            crate::fixed::lemma_mul_le(p@.x, p@.x, FX_ONE as int, FX_ONE as int);
            crate::fixed::lemma_mul_le(p@.y, p@.y, FX_ONE as int, FX_ONE as int);
            crate::fixed::lemma_mul_le(p@.z, p@.z, FX_ONE as int, FX_ONE as int);
        }
        let nr = p.x * p.x + p.y * p.y + p.z * p.z;
        if nr < FX_ONE * FX_ONE {
            return p;
        }
        tries = tries + 1;
    }
    Vector3::new(0, 0, 0)
}

/// A point drawn uniformly from the open unit disk in the plane `z == 0`,
/// by the same rejection scheme.
pub fn random_in_unit_disk() -> (p: Vector3)
    ensures
        bounded3(p@, FX_ONE as int),
        rsq(p@) < FX_ONE * FX_ONE,
        p@.z == 0,
{
    let mut tries: u32 = 0;
    while tries < 1000
        invariant
            true,
        decreases 1000 - tries,
    {
        let p = Vector3::new(2 * random_unit_fx() - FX_ONE, 2 * random_unit_fx() - FX_ONE, 0);
        proof {
            crate::fixed::lemma_mul_le(p@.x, p@.x, FX_ONE as int, FX_ONE as int);
            crate::fixed::lemma_mul_le(p@.y, p@.y, FX_ONE as int, FX_ONE as int);
            crate::fixed::lemma_mul_le(p@.z, p@.z, FX_ONE as int, FX_ONE as int);
        }
        let nr = p.x * p.x + p.y * p.y + p.z * p.z;
        if nr < FX_ONE * FX_ONE {
            return p;
        }
        tries = tries + 1;
    }
    Vector3::new(0, 0, 0)
}

} // verus!

//! 2-D coordinates as IEEE-754 bit patterns.
//!
//! A `Point` stores the raw bits of the two `f32` coordinates it stands
//! for. Equality is bit equality, and ordering goes through `coord_key`,
//! a monotone injection of the bit patterns into `u64` that orders
//! non-NaN floats the way `f32::total_cmp` does (negative values below
//! positive ones). Every container in the preprocessor treats bit-equal
//! points as the same vertex.

use vstd::prelude::*;

verus! {

/// Half of the key space: bit patterns with the sign bit clear map above
/// it, bit patterns with the sign bit set map below it, reversed.
pub const SIGN_BIT: u32 = 0x8000_0000;

/// Monotone injection of an `f32` bit pattern into `u32`, ordering
/// non-NaN floats as `f32::total_cmp` does.
pub open spec fn spec_coord_key(bits: u32) -> u32 {
    if bits < SIGN_BIT {
        (bits + SIGN_BIT) as u32
    } else {
        (0xFFFF_FFFFu32 - bits) as u32
    }
}

/// Exec twin of [`spec_coord_key`].
#[verifier::when_used_as_spec(spec_coord_key)]
pub fn coord_key(bits: u32) -> (r: u32)
    ensures
        r == spec_coord_key(bits),
{
    if bits < SIGN_BIT {
        bits + SIGN_BIT
    } else {
        0xFFFF_FFFFu32 - bits
    }
}

pub proof fn lemma_coord_key_injective(a: u32, b: u32)
    ensures
        spec_coord_key(a) == spec_coord_key(b) ==> a == b,
{
}

/// A 2-D coordinate: latitude and longitude as `f32` bit patterns.
#[derive(Clone, Copy, PartialEq, Eq, Structural, Debug, Hash)]
pub struct Point {
    pub lat: u32,
    pub lon: u32,
}

impl Point {
    pub fn new(lat: u32, lon: u32) -> (r: Point)
        ensures
            r == (Point { lat, lon }),
    {
        Point { lat, lon }
    }

    /// Total-order key of the pair: latitude bits are the high word, so
    /// points order lexicographically by (latitude, longitude), each
    /// coordinate in `total_cmp` order. Injective, so it doubles as the
    /// hash-map key that identifies a vertex.
    pub open spec fn spec_key(self) -> u64 {
        (spec_coord_key(self.lat) * 0x1_0000_0000u64 + spec_coord_key(self.lon)) as u64
    }

    #[verifier::when_used_as_spec(spec_key)]
    pub fn key(self) -> (r: u64)
        ensures
            r == self.spec_key(),
    {
        (coord_key(self.lat) as u64) * 0x1_0000_0000u64 + (coord_key(self.lon) as u64)
    }
}

pub proof fn lemma_point_key_injective(a: Point, b: Point)
    ensures
        a.spec_key() == b.spec_key() ==> a == b,
{
    if a.spec_key() == b.spec_key() {
        assert(spec_coord_key(a.lat) == spec_coord_key(b.lat)
            && spec_coord_key(a.lon) == spec_coord_key(b.lon)) by (nonlinear_arith)
            requires
                spec_coord_key(a.lat) * 0x1_0000_0000u64 + spec_coord_key(a.lon)
                    == spec_coord_key(b.lat) * 0x1_0000_0000u64 + spec_coord_key(b.lon),
                spec_coord_key(a.lon) < 0x1_0000_0000u64,
                spec_coord_key(b.lon) < 0x1_0000_0000u64,
        {
        }
        lemma_coord_key_injective(a.lat, b.lat);
        lemma_coord_key_injective(a.lon, b.lon);
    }
}

} // verus!

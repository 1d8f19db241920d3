//! Order keys for single-precision coordinates.
//!
//! A coordinate enters the library as its IEEE-754 bit pattern. Its order key is an
//! unsigned integer whose order is the order of the coordinates: for two values that
//! are not NaN, `a < b` as floating-point numbers exactly when `key(a) < key(b)`, and
//! `-0.0` and `+0.0` share one key. The key is the sign-magnitude reading of the bit
//! pattern, shifted by 2^31 so that it is never negative.
use vstd::prelude::*;

verus! {

/// The bit pattern of positive infinity.
pub const POS_INF_BITS: u32 = 0x7F80_0000;

/// The order key of positive infinity: the largest key of a value that is not NaN.
pub const POS_INF_KEY: u32 = 0xFF80_0000;

/// The order key of negative infinity: the smallest key of a value that is not NaN.
pub const NEG_INF_KEY: u32 = 0x0080_0000;

/// The sign-magnitude integer that a bit pattern denotes: its low 31 bits, negated
/// when the sign bit is set.
pub open spec fn signed_magnitude(bits: u32) -> int {
    if bits >= 0x8000_0000 {
        -((bits - 0x8000_0000) as int)
    } else {
        bits as int
    }
}

/// The order key of a bit pattern, as an integer.
pub open spec fn key_of(bits: u32) -> int {
    signed_magnitude(bits) + 0x8000_0000
}

/// A bit pattern is NaN when its magnitude lies above that of infinity.
pub open spec fn is_nan_bits(bits: u32) -> bool {
    let m = if bits >= 0x8000_0000 { bits - 0x8000_0000 } else { bits as int };
    m > POS_INF_BITS
}

/// A key that some value other than NaN has.
pub open spec fn valid_key(k: u32) -> bool {
    NEG_INF_KEY <= k <= POS_INF_KEY
}

/// The order key of the coordinate whose bit pattern is `bits`.
pub fn order_key(bits: u32) -> (r: u32)
    ensures
        r as int == key_of(bits),
        valid_key(r) <==> !is_nan_bits(bits),
{
    if bits >= 0x8000_0000 {
        (0xFFFF_FFFFu32 - bits) + 1
    } else {
        bits + 0x8000_0000
    }
}

/// Whether `key` is the key of some value other than NaN.
pub fn is_valid_key(key: u32) -> (r: bool)
    ensures
        r == valid_key(key),
{
    NEG_INF_KEY <= key && key <= POS_INF_KEY
}

/// The bit pattern of the coordinate whose order key is `key`; of the two zeros it
/// gives `+0.0`.
pub fn key_to_bits(key: u32) -> (r: u32)
    requires
        valid_key(key),
    ensures
        key_of(r) == key as int,
        r != 0x8000_0000u32,
        !is_nan_bits(r),
{
    if key >= 0x8000_0000 {
        key - 0x8000_0000
    } else {
        (0xFFFF_FFFFu32 - key) + 1
    }
}

/// Converting a bit pattern to its key and back gives the same pattern, but for
/// `-0.0`, which comes back as `+0.0`.
pub proof fn lemma_key_round_trip(bits: u32, back: u32)
    requires
        key_of(back) == key_of(bits),
        back != 0x8000_0000u32,
        bits != 0x8000_0000u32,
    ensures
        back == bits,
{
}

/// Three order keys: a point, or a box corner, as far as ordering goes.
#[derive(Clone, Copy, Debug, PartialEq, Eq, Structural)]
pub struct KeyVec3 {
    pub x: u32,
    pub y: u32,
    pub z: u32,
}

/// The bit patterns of three single-precision coordinates.
#[derive(Clone, Copy, Debug, PartialEq, Eq, Structural)]
pub struct RawVec3 {
    pub x: u32,
    pub y: u32,
    pub z: u32,
}

pub open spec fn min_key(a: u32, b: u32) -> u32 {
    if a <= b { a } else { b }
}

pub open spec fn max_key(a: u32, b: u32) -> u32 {
    if a >= b { a } else { b }
}

impl KeyVec3 {
    pub fn new(x: u32, y: u32, z: u32) -> (r: KeyVec3)
        ensures
            r == (KeyVec3 { x, y, z }),
    {
        KeyVec3 { x, y, z }
    }

    /// The coordinate on an axis: 0, 1, 2 for x, y, z.
    pub open spec fn at(self, axis: int) -> u32 {
        if axis == 0 {
            self.x
        } else if axis == 1 {
            self.y
        } else {
            self.z
        }
    }

    pub open spec fn valid(self) -> bool {
        valid_key(self.x) && valid_key(self.y) && valid_key(self.z)
    }

    pub open spec fn min_spec(self, o: KeyVec3) -> KeyVec3 {
        KeyVec3 { x: min_key(self.x, o.x), y: min_key(self.y, o.y), z: min_key(self.z, o.z) }
    }

    pub open spec fn max_spec(self, o: KeyVec3) -> KeyVec3 {
        KeyVec3 { x: max_key(self.x, o.x), y: max_key(self.y, o.y), z: max_key(self.z, o.z) }
    }

    /// Componentwise at most.
    pub open spec fn le(self, o: KeyVec3) -> bool {
        self.x <= o.x && self.y <= o.y && self.z <= o.z
    }

    pub fn get(&self, axis: usize) -> (r: u32)
        requires
            axis < 3,
        ensures
            r == self.at(axis as int),
    {
        if axis == 0 {
            self.x
        } else if axis == 1 {
            self.y
        } else {
            self.z
        }
    }

    /// Componentwise minimum.
    pub fn min(&self, o: &KeyVec3) -> (r: KeyVec3)
        ensures
            r == self.min_spec(*o),
    {
        KeyVec3 {
            x: if self.x <= o.x { self.x } else { o.x },
            y: if self.y <= o.y { self.y } else { o.y },
            z: if self.z <= o.z { self.z } else { o.z },
        }
    }

    /// Componentwise maximum.
    pub fn max(&self, o: &KeyVec3) -> (r: KeyVec3)
        ensures
            r == self.max_spec(*o),
    {
        KeyVec3 {
            x: if self.x >= o.x { self.x } else { o.x },
            y: if self.y >= o.y { self.y } else { o.y },
            z: if self.z >= o.z { self.z } else { o.z },
        }
    }
}

impl RawVec3 {
    pub open spec fn keys(self) -> KeyVec3 {
        KeyVec3 { x: key_of(self.x) as u32, y: key_of(self.y) as u32, z: key_of(self.z) as u32 }
    }

    pub open spec fn has_nan(self) -> bool {
        is_nan_bits(self.x) || is_nan_bits(self.y) || is_nan_bits(self.z)
    }

    /// The order keys of the three coordinates.
    pub fn to_keys(&self) -> (r: KeyVec3)
        ensures
            r == self.keys(),
            r.valid() <==> !self.has_nan(),
    {
        KeyVec3 { x: order_key(self.x), y: order_key(self.y), z: order_key(self.z) }
    }
}

} // verus!

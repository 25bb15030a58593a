//! Fixed-point vectors, colors, matrices and transforms.
//!
//! Every coordinate, angle and scale factor is an integer number of
//! thousandths of a unit, so all spatial arithmetic is exact and free of
//! rounding surprises.

use vstd::prelude::*;
use vstd::arithmetic::div_mod::{
    lemma_div_is_ordered, lemma_div_multiples_vanish, lemma_div_nonincreasing,
    lemma_div_pos_is_pos,
};
use vstd::arithmetic::mul::lemma_mul_inequality;

verus! {

/// One whole unit in fixed-point representation.
pub const FP_ONE: i64 = 1000;

/// Largest magnitude a coordinate may take while keeping all the arithmetic
/// in this module free of overflow.
pub const FP_LIMIT: i64 = 1_000_000_000;

/// A three-component fixed-point vector.
#[derive(Clone, Copy, PartialEq, Eq, Structural, Debug)]
pub struct Vector3 {
    pub x: i64,
    pub y: i64,
    pub z: i64,
}

impl Vector3 {
    /// True when every component has magnitude below `b`.
    pub open spec fn bounded(self, b: int) -> bool {
        -b < self.x < b && -b < self.y < b && -b < self.z < b
    }

    pub fn new(x: i64, y: i64, z: i64) -> (r: Vector3)
        ensures
            r == (Vector3 { x, y, z }),
    {
        Vector3 { x, y, z }
    }

    /// Component-wise sum; the bounds keep the additions exact.
    pub fn add(self, other: Vector3) -> (r: Vector3)
        requires
            self.bounded(FP_LIMIT as int),
            other.bounded(FP_LIMIT as int),
        ensures
            r.x == self.x + other.x,
            r.y == self.y + other.y,
            r.z == self.z + other.z,
    {
        Vector3 { x: self.x + other.x, y: self.y + other.y, z: self.z + other.z }
    }
}

/// An RGBA color with 8 bits per channel.
#[derive(Clone, Copy, PartialEq, Eq, Structural, Debug)]
pub struct Color {
    pub r: u8,
    pub g: u8,
    pub b: u8,
    pub a: u8,
}

impl Color {
    /// The packed 32-bit form of a color: red in the lowest byte, then
    /// green, blue and alpha.
    pub open spec fn packed(self) -> int {
        self.r + 256 * self.g + 65536 * self.b + 16777216 * self.a
    }

    pub fn opaque(r: u8, g: u8, b: u8) -> (c: Color)
        ensures
            c == (Color { r, g, b, a: 255u8 }),
    {
        Color { r, g, b, a: 255 }
    }

    /// Packs the four channels into one little-endian RGBA word.
    pub fn to_rgba32(self) -> (r: u32)
        ensures
            r == self.packed(),
    {
        self.r as u32 + 256 * (self.g as u32) + 65536 * (self.b as u32) + 16777216 * (self.a
            as u32)
    }
}

/// A 4x4 fixed-point matrix in row-major order, as a camera hands its
/// view-projection to the renderer.
#[derive(Clone, Copy, PartialEq, Debug)]
pub struct Matrix4 {
    pub m: [i64; 16],
}

impl Matrix4 {
    /// The identity: ones down the diagonal, in fixed-point units.
    pub fn identity() -> (r: Matrix4)
        ensures
            r.m@ == seq![
                FP_ONE, 0i64, 0i64, 0i64,
                0i64, FP_ONE, 0i64, 0i64,
                0i64, 0i64, FP_ONE, 0i64,
                0i64, 0i64, 0i64, FP_ONE,
            ],
    {
        let m = Matrix4 {
            m: [
                FP_ONE, 0, 0, 0,
                0, FP_ONE, 0, 0,
                0, 0, FP_ONE, 0,
                0, 0, 0, FP_ONE,
            ],
        };
        proof {
            assert(m.m@ =~= seq![
                FP_ONE, 0i64, 0i64, 0i64,
                0i64, FP_ONE, 0i64, 0i64,
                0i64, 0i64, FP_ONE, 0i64,
                0i64, 0i64, 0i64, FP_ONE,
            ]);
        }
        m
    }
}

/// What linear interpolation between `a` and `b` at fraction `num / den`
/// yields, written with non-negative division only so that the executable
/// unsigned arithmetic matches it exactly.
pub open spec fn lerp_spec(a: int, b: int, num: int, den: int) -> int {
    if b >= a {
        a + (b - a) * num / den
    } else {
        a - (a - b) * num / den
    }
}

/// Linear interpolation between two fixed-point values at fraction
/// `num / den`.
pub fn lerp_i64(a: i64, b: i64, num: u32, den: u32) -> (r: i64)
    requires
        0 < den,
        num <= den,
    ensures
        r == lerp_spec(a as int, b as int, num as int, den as int),
        num == 0 ==> r == a,
        num == den ==> r == b,
        a <= b ==> a <= r <= b,
        b <= a ==> b <= r <= a,
{
    if b >= a {
        let diff: u128 = (b as i128 - a as i128) as u128;
        proof {
            lemma_lerp_step_bounds(diff as int, num as int, den as int);
        }
        let step: u128 = diff * (num as u128) / (den as u128);
        (a as i128 + step as i128) as i64
    } else {
        let diff: u128 = (a as i128 - b as i128) as u128;
        proof {
            lemma_lerp_step_bounds(diff as int, num as int, den as int);
        }
        let step: u128 = diff * (num as u128) / (den as u128);
        (a as i128 - step as i128) as i64
    }
}

/// The interpolation step `diff * num / den` never exceeds `diff`, is
/// non-negative, and is exact at the two endpoints.
proof fn lemma_lerp_step_bounds(diff: int, num: int, den: int)
    requires
        0 <= diff < 0x1_0000_0000_0000_0000,
        0 < den < 0x1_0000_0000,
        0 <= num <= den,
    ensures
        0 <= diff * num,
        diff * num < 0x1_0000_0000_0000_0000_0000_0000,
        diff * num <= diff * den,
        0 <= diff * num / den <= diff,
        num == 0 ==> diff * num / den == 0,
        num == den ==> diff * num / den == diff,
{
    assert(diff * num < 0x1_0000_0000_0000_0000_0000_0000) by (nonlinear_arith)
        requires
            0 <= diff < 0x1_0000_0000_0000_0000,
            0 <= num < 0x1_0000_0000,
    ;
    lemma_mul_inequality(num, den, diff);
    assert(num * diff == diff * num);
    assert(den * diff == diff * den);
    assert(0 * diff == 0);
    lemma_mul_inequality(0, num, diff);
    lemma_div_is_ordered(diff * num, diff * den, den);
    lemma_div_multiples_vanish(diff, den);
    assert(den * diff == diff * den);
    assert(diff * den / den == diff);
    lemma_div_pos_is_pos(diff * num, den);
    if num == 0 {
        assert(diff * 0 == 0);
    }
}

/// Interpolation is exact at both endpoints of the fraction range.
pub proof fn lemma_lerp_spec_ends(a: int, b: int, den: int)
    requires
        0 < den,
    ensures
        lerp_spec(a, b, 0, den) == a,
        lerp_spec(a, b, den, den) == b,
{
    let d = if b >= a {
        b - a
    } else {
        a - b
    };
    lemma_div_multiples_vanish(d, den);
    vstd::arithmetic::mul::lemma_mul_is_commutative(den, d);
    assert(d * den / den == d);
    lemma_div_multiples_vanish(0, den);
    assert(den * 0 == 0);
    assert(d * 0 == 0);
}

/// A local transform: position and rotation in thousandths of a unit or
/// degree, scale in thousandths of identity.
#[derive(Clone, Copy, PartialEq, Eq, Structural, Debug)]
pub struct Transform {
    pub position: Vector3,
    pub rotation: Vector3,
    pub scale: Vector3,
}

impl Transform {
    pub open spec fn bounded(self, b: int) -> bool {
        self.position.bounded(b) && self.rotation.bounded(b) && self.scale.bounded(b)
    }

    /// The identity transform: no offset, no rotation, unit scale.
    pub fn identity() -> (r: Transform)
        ensures
            r.position == (Vector3 { x: 0i64, y: 0i64, z: 0i64 }),
            r.rotation == (Vector3 { x: 0i64, y: 0i64, z: 0i64 }),
            r.scale == (Vector3 { x: FP_ONE, y: FP_ONE, z: FP_ONE }),
    {
        Transform {
            position: Vector3 { x: 0, y: 0, z: 0 },
            rotation: Vector3 { x: 0, y: 0, z: 0 },
            scale: Vector3 { x: FP_ONE, y: FP_ONE, z: FP_ONE },
        }
    }

    /// Composes a parent transform with a child's local transform: offsets
    /// and rotations add, scales multiply in fixed point.
    pub fn combine(self, child: Transform) -> (r: Transform)
        requires
            self.bounded(FP_LIMIT as int),
            child.bounded(FP_LIMIT as int),
        ensures
            r.position.x == self.position.x + child.position.x,
            r.position.y == self.position.y + child.position.y,
            r.position.z == self.position.z + child.position.z,
            r.rotation.x == self.rotation.x + child.rotation.x,
            r.rotation.y == self.rotation.y + child.rotation.y,
            r.rotation.z == self.rotation.z + child.rotation.z,
            r.scale.x == fp_mul_spec(self.scale.x as int, child.scale.x as int),
            r.scale.y == fp_mul_spec(self.scale.y as int, child.scale.y as int),
            r.scale.z == fp_mul_spec(self.scale.z as int, child.scale.z as int),
    {
        Transform {
            position: self.position.add(child.position),
            rotation: self.rotation.add(child.rotation),
            scale: Vector3 {
                x: fp_mul(self.scale.x, child.scale.x),
                y: fp_mul(self.scale.y, child.scale.y),
                z: fp_mul(self.scale.z, child.scale.z),
            },
        }
    }
}

/// Fixed-point product: `a * b` scaled back down by one unit, rounded
/// toward zero.
pub open spec fn fp_mul_spec(a: int, b: int) -> int {
    if a * b >= 0 {
        a * b / (FP_ONE as int)
    } else {
        -((-(a * b)) / (FP_ONE as int))
    }
}

/// Multiplies two fixed-point factors.
pub fn fp_mul(a: i64, b: i64) -> (r: i64)
    requires
        -FP_LIMIT < a < FP_LIMIT,
        -FP_LIMIT < b < FP_LIMIT,
    ensures
        r == fp_mul_spec(a as int, b as int),
{
    proof {
        assert(-1_000_000_000_000_000_000 < (a as int) * (b as int) < 1_000_000_000_000_000_000)
            by (nonlinear_arith)
            requires
                -1_000_000_000 < (a as int) < 1_000_000_000,
                -1_000_000_000 < (b as int) < 1_000_000_000,
        ;
    }
    let product: i128 = a as i128 * b as i128;
    if product >= 0 {
        proof {
            lemma_div_nonincreasing(product as int, FP_ONE as int);
            lemma_div_pos_is_pos(product as int, FP_ONE as int);
        }
        let q: u128 = product as u128 / (FP_ONE as u128);
        q as i64
    } else {
        proof {
            lemma_div_nonincreasing(-(product as int), FP_ONE as int);
            lemma_div_pos_is_pos(-(product as int), FP_ONE as int);
        }
        let q: u128 = (-product) as u128 / (FP_ONE as u128);
        -(q as i128) as i64
    }
}

} // verus!

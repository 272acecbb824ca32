//! Fixed-point scalars and three-component vectors.
use vstd::prelude::*;

verus! {

/// The fixed-point value that stands for `1.0`.
pub const ONE: i64 = 1_000_000;

/// Largest magnitude a coordinate can take; sums saturate at this bound.
pub const COORD_LIMIT: i64 = 1_125_899_906_842_624;

/// A coordinate pushed back into `[-COORD_LIMIT, COORD_LIMIT]`.
pub open spec fn clamp_coord(v: int) -> int {
    if v > COORD_LIMIT {
        COORD_LIMIT as int
    } else if v < -COORD_LIMIT {
        -COORD_LIMIT
    } else {
        v
    }
}

/// Quotient rounded toward zero (Rust's integer division), for `d > 0`.
pub open spec fn div_trunc(a: int, d: int) -> int {
    if a >= 0 {
        a / d
    } else {
        -((-a) / d)
    }
}

/// Product of `v` with the fixed-point factor `b`, rounded toward zero.
pub open spec fn mul_fixed(v: int, b: int) -> int {
    div_trunc(v * b, ONE as int)
}

/// `a + b` saturated to the range of `i64`.
pub open spec fn sat_add(a: int, b: int) -> int {
    if a + b > i64::MAX {
        i64::MAX as int
    } else if a + b < i64::MIN {
        i64::MIN as int
    } else {
        a + b
    }
}

/// Exec form of [`div_trunc`] on `i128`.
pub fn div_trunc_i128(a: i128, d: i128) -> (r: i128)
    requires
        d > 0,
        a > i128::MIN,
    ensures
        r == div_trunc(a as int, d as int),
{
    if a >= 0 {
        a / d
    } else {
        -((-a) / d)
    }
}

/// Exec form of [`clamp_coord`].
pub fn clamp_coord_i128(v: i128) -> (r: i64)
    ensures
        r == clamp_coord(v as int),
{
    if v > COORD_LIMIT as i128 {
        COORD_LIMIT
    } else if v < -(COORD_LIMIT as i128) {
        -COORD_LIMIT
    } else {
        v as i64
    }
}

/// Exec form of [`sat_add`].
pub fn sat_add_i64(a: i64, b: i64) -> (r: i64)
    ensures
        r == sat_add(a as int, b as int),
{
    let s = a as i128 + b as i128;
    if s > i64::MAX as i128 {
        i64::MAX
    } else if s < i64::MIN as i128 {
        i64::MIN
    } else {
        s as i64
    }
}

/// `a - b` saturated to the range of `i64`.
pub fn sat_sub_i64(a: i64, b: i64) -> (r: i64)
    ensures
        r == sat_add(a as int, -b),
{
    let s = a as i128 - b as i128;
    if s > i64::MAX as i128 {
        i64::MAX
    } else if s < i64::MIN as i128 {
        i64::MIN
    } else {
        s as i64
    }
}

/// A position, displacement or color with fixed-point components.
#[derive(Clone, Copy, Debug, PartialEq, Eq, Structural)]
pub struct Vec3 {
    pub x: i64,
    pub y: i64,
    pub z: i64,
}

impl Vec3 {
    /// Every component lies within `COORD_LIMIT`.
    pub open spec fn in_range(self) -> bool {
        &&& -COORD_LIMIT <= self.x <= COORD_LIMIT
        &&& -COORD_LIMIT <= self.y <= COORD_LIMIT
        &&& -COORD_LIMIT <= self.z <= COORD_LIMIT
    }

    pub open spec fn spec_zero() -> Vec3 {
        Vec3 { x: 0, y: 0, z: 0 }
    }

    /// Component-wise saturating sum.
    pub open spec fn plus(self, o: Vec3) -> Vec3 {
        Vec3 {
            x: clamp_coord(self.x + o.x) as i64,
            y: clamp_coord(self.y + o.y) as i64,
            z: clamp_coord(self.z + o.z) as i64,
        }
    }

    /// Component-wise saturating difference.
    pub open spec fn minus(self, o: Vec3) -> Vec3 {
        Vec3 {
            x: clamp_coord(self.x - o.x) as i64,
            y: clamp_coord(self.y - o.y) as i64,
            z: clamp_coord(self.z - o.z) as i64,
        }
    }

    /// Every component multiplied by the fixed-point factor `b`, saturated.
    pub open spec fn times(self, b: int) -> Vec3 {
        Vec3 {
            x: clamp_coord(mul_fixed(self.x as int, b)) as i64,
            y: clamp_coord(mul_fixed(self.y as int, b)) as i64,
            z: clamp_coord(mul_fixed(self.z as int, b)) as i64,
        }
    }

    /// Squared Euclidean length, in squared fixed-point units.
    pub open spec fn norm_sq(self) -> int {
        self.x * self.x + self.y * self.y + self.z * self.z
    }

    pub fn new(x: i64, y: i64, z: i64) -> (r: Vec3)
        ensures
            r == (Vec3 { x, y, z }),
    {
        Vec3 { x, y, z }
    }

    pub fn zero() -> (r: Vec3)
        ensures
            r == Vec3::spec_zero(),
    {
        Vec3 { x: 0, y: 0, z: 0 }
    }

    pub fn add(self, o: Vec3) -> (r: Vec3)
        ensures
            r == self.plus(o),
            r.in_range(),
    {
        Vec3 {
            x: clamp_coord_i128(self.x as i128 + o.x as i128),
            y: clamp_coord_i128(self.y as i128 + o.y as i128),
            z: clamp_coord_i128(self.z as i128 + o.z as i128),
        }
    }

    pub fn sub(self, o: Vec3) -> (r: Vec3)
        ensures
            r == self.minus(o),
            r.in_range(),
    {
        Vec3 {
            x: clamp_coord_i128(self.x as i128 - o.x as i128),
            y: clamp_coord_i128(self.y as i128 - o.y as i128),
            z: clamp_coord_i128(self.z as i128 - o.z as i128),
        }
    }

    pub fn scale(self, b: i64) -> (r: Vec3)
        ensures
            r == self.times(b as int),
            r.in_range(),
    {
        let one = ONE as i128;
        Vec3 {
            x: clamp_coord_i128(div_trunc_i128(mul_i64(self.x, b), one)),
            y: clamp_coord_i128(div_trunc_i128(mul_i64(self.y, b), one)),
            z: clamp_coord_i128(div_trunc_i128(mul_i64(self.z, b), one)),
        }
    }
}

/// Exact product of two `i64` values.
pub fn mul_i64(a: i64, b: i64) -> (r: i128)
    ensures
        r == a * b,
        -0x4000_0000_0000_0000_0000_0000_0000_0000 <= r <= 0x4000_0000_0000_0000_0000_0000_0000_0000,
{
    proof {
        let (ai, bi) = (a as int, b as int);
        assert(-0x4000_0000_0000_0000_0000_0000_0000_0000 <= ai * bi
            <= 0x4000_0000_0000_0000_0000_0000_0000_0000) by (nonlinear_arith)
            requires
                -0x8000_0000_0000_0000 <= ai <= 0x7fff_ffff_ffff_ffff,
                -0x8000_0000_0000_0000 <= bi <= 0x7fff_ffff_ffff_ffff,
        ;
    }
    a as i128 * b as i128
}

} // verus!

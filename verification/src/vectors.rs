//! Plane vectors: integer grid vectors and fixed-point configuration-space
//! vectors.
//!
//! Lengths and positions are held as plain integers in a caller-chosen unit
//! (for instance micrometres).  A direction is not an angle but the pair of
//! its cosine and sine, each scaled by `TRIG_SCALE`; products with a
//! direction component are divided by `TRIG_SCALE` again, rounding toward
//! zero.
use vstd::prelude::*;
use crate::imath::{abs_i, div_trunc, lemma_div_trunc_bound, isqrt_u128};

verus! {

/// Scale of the fixed-point cosine and sine values: a direction component
/// of 1.0 is stored as `TRIG_SCALE`.
pub const TRIG_SCALE: i64 = 1_000_000;

/// Magnitudes this crate's geometry accepts for positions, sizes and radii.
pub const COORD_LIMIT: i64 = 0x4000_0000;

/// A point in the discretized configuration space.
#[derive(Clone, Copy, PartialEq, Eq, Structural, Debug, Hash)]
pub struct Vec2i {
    pub x: i32,
    pub y: i32,
}

impl Vec2i {
    /// Componentwise difference.
    pub fn sub(self, rhs: Vec2i) -> (r: Vec2i)
        requires
            -0x4000_0000 < self.x - rhs.x < 0x4000_0000,
            -0x4000_0000 < self.y - rhs.y < 0x4000_0000,
        ensures
            r.x == self.x - rhs.x,
            r.y == self.y - rhs.y,
    {
        Vec2i { x: self.x - rhs.x, y: self.y - rhs.y }
    }

    /// Floor of the Euclidean length.
    pub fn mag(&self) -> (r: u64)
        ensures
            (r as int) * (r as int) <= (self.x as int) * (self.x as int) + (self.y as int) * (
            self.y as int),
            (self.x as int) * (self.x as int) + (self.y as int) * (self.y as int) < ((r as int
                + 1) * (r as int + 1)),
    {
        proof {
            assert(0 <= (self.x as int) * (self.x as int) <= 0x4000_0000_0000_0000 && 0 <= (
            self.y as int) * (self.y as int) <= 0x4000_0000_0000_0000) by (nonlinear_arith)
                requires
                    -0x8000_0000 <= self.x as int <= 0x8000_0000,
                    -0x8000_0000 <= self.y as int <= 0x8000_0000,
            ;
        }
        let sq: i128 = (self.x as i128) * (self.x as i128) + (self.y as i128) * (self.y as i128);
        isqrt_u128(sq as u128)
    }
}

/// A direction, given by its fixed-point cosine and sine.
#[derive(Clone, Copy, PartialEq, Eq, Structural, Debug)]
pub struct Trig {
    pub cos: i64,
    pub sin: i64,
}

impl Trig {
    /// Both components are within the fixed-point unit circle's bounding box.
    pub open spec fn wf(self) -> bool {
        &&& abs_i(self.cos as int) <= TRIG_SCALE
        &&& abs_i(self.sin as int) <= TRIG_SCALE
    }

    /// The opposite rotation: cosine kept, sine negated.
    pub fn neg(self) -> (r: Trig)
        requires
            self.wf(),
        ensures
            r == (Trig { cos: self.cos, sin: -self.sin as i64 }),
            r.wf(),
    {
        Trig { cos: self.cos, sin: -self.sin }
    }
}

/// The directions of a pose's two joint angles.
#[derive(Clone, Copy, PartialEq, Eq, Structural, Debug)]
pub struct PoseDirections {
    pub bottom: Trig,
    pub top: Trig,
}

impl PoseDirections {
    /// Both directions within the fixed-point unit circle's bounding box.
    pub open spec fn wf(self) -> bool {
        &&& self.bottom.wf()
        &&& self.top.wf()
    }
}

/// `a` scaled by the fixed-point factor `t`, rounded toward zero.
pub open spec fn scale_spec(a: int, t: int) -> int {
    div_trunc(a * t, TRIG_SCALE as int)
}

/// Scaling by a factor of magnitude at most `TRIG_SCALE` cannot grow a value.
pub proof fn lemma_scale_bound(a: int, t: int)
    requires
        abs_i(t) <= TRIG_SCALE,
    ensures
        abs_i(scale_spec(a, t)) <= abs_i(a),
{
    assert(abs_i(a * t) <= abs_i(a) * (TRIG_SCALE as int)) by (nonlinear_arith)
        requires
            abs_i(t) <= TRIG_SCALE,
    ;
    lemma_div_trunc_bound(a * t, TRIG_SCALE as int, abs_i(a));
}

/// `a` scaled by the fixed-point factor `t`.
fn scale(a: i64, t: i64) -> (r: i64)
    requires
        abs_i(a as int) <= 8 * COORD_LIMIT,
        abs_i(t as int) <= TRIG_SCALE,
    ensures
        r == scale_spec(a as int, t as int),
        abs_i(r as int) <= abs_i(a as int),
{
    proof {
        lemma_scale_bound(a as int, t as int);
    }
    let p: i128 = (a as i128) * (t as i128);
    if p >= 0 {
        (p / (TRIG_SCALE as i128)) as i64
    } else {
        (-((-p) / (TRIG_SCALE as i128))) as i64
    }
}

/// A position or displacement in the plane, in plain integer units.
#[derive(Clone, Copy, PartialEq, Eq, Structural, Debug)]
pub struct Vec2f {
    pub x: i64,
    pub y: i64,
}

/// What `Vec2f::new_from_angle` returns.
pub open spec fn from_angle_spec(dir: Trig, magnitude: int) -> Vec2f {
    Vec2f {
        x: scale_spec(magnitude, dir.cos as int) as i64,
        y: scale_spec(magnitude, dir.sin as int) as i64,
    }
}

/// What `Vec2f::rotated` returns.
pub open spec fn rotated_spec(v: Vec2f, dir: Trig) -> Vec2f {
    Vec2f {
        x: (scale_spec(v.x as int, dir.cos as int) - scale_spec(v.y as int, dir.sin as int)) as i64,
        y: (scale_spec(v.x as int, dir.sin as int) + scale_spec(v.y as int, dir.cos as int)) as i64,
    }
}

impl Vec2f {
    /// Both components within `b` in magnitude.
    pub open spec fn bounded(self, b: int) -> bool {
        &&& abs_i(self.x as int) <= b
        &&& abs_i(self.y as int) <= b
    }

    /// The vector of the given length pointing in the given direction.
    pub fn new_from_angle(dir: Trig, magnitude: i64) -> (r: Vec2f)
        requires
            dir.wf(),
            abs_i(magnitude as int) <= 8 * COORD_LIMIT,
        ensures
            r == from_angle_spec(dir, magnitude as int),
            r.bounded(abs_i(magnitude as int)),
    {
        Vec2f { x: scale(magnitude, dir.cos), y: scale(magnitude, dir.sin) }
    }

    /// This vector turned by the given direction.
    pub fn rotated(&self, dir: Trig) -> (r: Vec2f)
        requires
            dir.wf(),
            self.bounded(4 * COORD_LIMIT),
        ensures
            r == rotated_spec(*self, dir),
            r.bounded(8 * COORD_LIMIT),
    {
        let cx = scale(self.x, dir.cos);
        let sy = scale(self.y, dir.sin);
        let sx = scale(self.x, dir.sin);
        let cy = scale(self.y, dir.cos);
        Vec2f { x: cx - sy, y: sx + cy }
    }

    /// The squared Euclidean length, exactly.
    pub fn mag_sq(&self) -> (r: i128)
        requires
            self.bounded(0x8_0000_0000_0000),
        ensures
            r == (self.x as int) * (self.x as int) + (self.y as int) * (self.y as int),
    {
        proof {
            assert(0 <= (self.x as int) * (self.x as int) <= 0x40_0000_0000_0000_0000_0000_0000
                && 0 <= (self.y as int) * (self.y as int) <= 0x40_0000_0000_0000_0000_0000_0000)
                by (nonlinear_arith)
                requires
                    abs_i(self.x as int) <= 0x8_0000_0000_0000,
                    abs_i(self.y as int) <= 0x8_0000_0000_0000,
            ;
        }
        (self.x as i128) * (self.x as i128) + (self.y as i128) * (self.y as i128)
    }

    /// Componentwise sum.
    pub fn add(self, rhs: Vec2f) -> (r: Vec2f)
        requires
            abs_i(self.x + rhs.x) <= i64::MAX,
            abs_i(self.y + rhs.y) <= i64::MAX,
        ensures
            r.x == self.x + rhs.x,
            r.y == self.y + rhs.y,
    {
        Vec2f { x: self.x + rhs.x, y: self.y + rhs.y }
    }

    /// Componentwise difference.
    pub fn sub(self, rhs: Vec2f) -> (r: Vec2f)
        requires
            abs_i(self.x - rhs.x) <= i64::MAX,
            abs_i(self.y - rhs.y) <= i64::MAX,
        ensures
            r.x == self.x - rhs.x,
            r.y == self.y - rhs.y,
    {
        Vec2f { x: self.x - rhs.x, y: self.y - rhs.y }
    }

    /// Componentwise quotient by a positive scalar, for non-negative vectors.
    pub fn div(self, rhs: i64) -> (r: Vec2f)
        requires
            rhs > 0,
            self.x >= 0,
            self.y >= 0,
        ensures
            r.x == self.x as int / rhs as int,
            r.y == self.y as int / rhs as int,
    {
        Vec2f { x: self.x / rhs, y: self.y / rhs }
    }
}

} // verus!

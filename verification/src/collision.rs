//! Circle–rectangle collision testing.
//!
//! Positions of shapes are their centers.  A rectangle may be rotated, and
//! may be `inverted`: an inverted rectangle stands for a *permitted* region,
//! so a circle collides when it leaves the rectangle or comes within its
//! radius of an edge, rather than when it overlaps the rectangle.
use vstd::prelude::*;
use crate::imath::abs_i;
use crate::vectors::{rotated_spec, Trig, Vec2f, COORD_LIMIT};

verus! {

/// A circle, by center and radius.
#[derive(Clone, Copy, PartialEq, Eq, Structural, Debug)]
pub struct Circle {
    pub position: Vec2f,
    pub radius: i64,
}

impl Circle {
    /// Center within twice the coordinate limit, radius within the limit.
    pub open spec fn wf(self) -> bool {
        &&& self.position.bounded(2 * COORD_LIMIT as int)
        &&& 0 <= self.radius <= COORD_LIMIT
    }
}

/// A rectangle, by center, full extents, rotation and orientation of its
/// inside.
#[derive(Clone, Copy, PartialEq, Eq, Structural, Debug)]
pub struct Rectangle {
    pub position: Vec2f,
    pub size: Vec2f,
    pub rotation: Trig,
    pub inverted: bool,
}

impl Rectangle {
    /// Center and extents within the coordinate limit, extents non-negative.
    pub open spec fn wf(self) -> bool {
        &&& self.position.bounded(COORD_LIMIT as int)
        &&& 0 <= self.size.x <= COORD_LIMIT
        &&& 0 <= self.size.y <= COORD_LIMIT
        &&& self.rotation.wf()
    }
}

/// The smaller of two values.
pub open spec fn min_spec(a: int, b: int) -> int {
    if a <= b {
        a
    } else {
        b
    }
}

fn min_i64(a: i64, b: i64) -> (r: i64)
    ensures
        r == min_spec(a as int, b as int),
{
    if a <= b {
        a
    } else {
        b
    }
}

/// `v` forced into `[lo, hi]`.
pub open spec fn clamp_spec(v: int, lo: int, hi: int) -> int {
    if v < lo {
        lo
    } else if v > hi {
        hi
    } else {
        v
    }
}

fn clamp_i64(v: i64, lo: i64, hi: i64) -> (r: i64)
    requires
        lo <= hi,
    ensures
        r == clamp_spec(v as int, lo as int, hi as int),
{
    if v < lo {
        lo
    } else if v > hi {
        hi
    } else {
        v
    }
}

/// Whether the circle collides with the rectangle.
///
/// The circle's center is translated into the rectangle's frame (shifted by
/// the center, turned by the opposite rotation).  For a normal rectangle the
/// circle collides when the squared distance from its center to the nearest
/// point of the rectangle is below the squared radius.  For an inverted
/// rectangle a center outside the bounds collides at once; a center inside
/// collides when its distance to the nearest edge is within the radius, so
/// the circle must fit fully inside with clearance on all four sides.
pub open spec fn circle_rect_collides_spec(circle: Circle, rect: Rectangle) -> bool {
    let grx = circle.position.x - rect.position.x;
    let gry = circle.position.y - rect.position.y;
    let rel = rotated_spec(
        Vec2f { x: grx as i64, y: gry as i64 },
        Trig { cos: rect.rotation.cos, sin: -rect.rotation.sin as i64 },
    );
    let half_x = rect.size.x as int / 2;
    let half_y = rect.size.y as int / 2;
    if rect.inverted {
        if abs_i(rel.x as int) > half_x || abs_i(rel.y as int) > half_y {
            true
        } else {
            let m = min_spec(
                min_spec(half_x + rel.x, half_x - rel.x),
                min_spec(half_y + rel.y, half_y - rel.y),
            );
            m <= circle.radius
        }
    } else {
        let cx = clamp_spec(rel.x as int, -half_x, half_x);
        let cy = clamp_spec(rel.y as int, -half_y, half_y);
        let dx = rel.x - cx;
        let dy = rel.y - cy;
        dx * dx + dy * dy < circle.radius * circle.radius
    }
}

/// Whether the circle collides with the rectangle; see
/// [`circle_rect_collides_spec`].
pub fn circle_rect_collides(circle: &Circle, rect: &Rectangle) -> (r: bool)
    requires
        circle.wf(),
        rect.wf(),
    ensures
        r == circle_rect_collides_spec(*circle, *rect),
{
    let global_rel = circle.position.sub(rect.position);
    let rel = global_rel.rotated(rect.rotation.neg());
    let half_sz = rect.size.div(2);

    if rect.inverted {
        let ax = if rel.x >= 0 {
            rel.x
        } else {
            -rel.x
        };
        let ay = if rel.y >= 0 {
            rel.y
        } else {
            -rel.y
        };
        if ax > half_sz.x || ay > half_sz.y {
            return true;
        }
        let n = half_sz.add(rel);
        let p = half_sz.sub(rel);
        let m = min_i64(min_i64(n.x, p.x), min_i64(n.y, p.y));
        return m <= circle.radius;
    }

    let closest = Vec2f {
        x: clamp_i64(rel.x, -half_sz.x, half_sz.x),
        y: clamp_i64(rel.y, -half_sz.y, half_sz.y),
    };
    let delta = rel.sub(closest);
    proof {
        assert(0 <= (circle.radius as int) * (circle.radius as int)
            <= 0x1000_0000_0000_0000_0000) by (nonlinear_arith)
            requires
                0 <= circle.radius as int <= COORD_LIMIT as int,
        ;
    }
    let rad_sq: i128 = (circle.radius as i128) * (circle.radius as i128);
    delta.mag_sq() < rad_sq
}

} // verus!

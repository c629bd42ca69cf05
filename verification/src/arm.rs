//! Arm kinematics and pose validity.
//!
//! A pose is the pair of joint angles, held as plain integers in a
//! caller-chosen angle unit.  The trigonometry of a pose — the cosine and
//! sine of each joint angle, in fixed point — is supplied alongside it,
//! since the validity test is otherwise pure integer arithmetic over the
//! static arm configuration.
use vstd::prelude::*;
use crate::collision::{circle_rect_collides, circle_rect_collides_spec, Circle, Rectangle};
use crate::imath::{abs_i, sign_i, sign_i64};
use crate::vectors::{from_angle_spec, PoseDirections, Trig, Vec2f, COORD_LIMIT};

verus! {

/// Static description of the arm and of the space it must stay in.
///
/// Lengths are in the same unit as shape coordinates; the joint-limit
/// interval is in the same angle unit as [`ArmPose`]'s fields.
pub struct ArmConfig {
    /// Distance from the bottom axis to the midpoint axis.
    pub bottom_len: i64,
    /// Distance from the midpoint axis to the wrist axis.
    pub top_len: i64,
    /// Maximum distance of the intake from the wrist axis.
    pub intake_rad: i64,
    /// Radius of the middle joint pulley.
    pub midpoint_rad: i64,
    /// Size of the drive base without bumpers.
    pub frame_size: i64,
    /// Smallest allowed bottom joint angle.
    pub min_bottom_angle: i64,
    /// Largest allowed bottom joint angle.
    pub max_bottom_angle: i64,
    /// The static collision shapes the intake must respect.
    pub collision_rects: Vec<Rectangle>,
}

impl ArmConfig {
    /// All lengths within the coordinate limit and all shapes well-formed.
    pub open spec fn wf(self) -> bool {
        &&& 0 <= self.bottom_len <= COORD_LIMIT
        &&& 0 <= self.top_len <= COORD_LIMIT
        &&& 0 <= self.intake_rad <= COORD_LIMIT
        &&& 0 <= self.midpoint_rad <= COORD_LIMIT
        &&& 0 <= self.frame_size <= COORD_LIMIT
        &&& forall|i: int|
            0 <= i < self.collision_rects.len() ==> self.collision_rects[i].wf()
    }
}

/// A pose of the arm: the two joint angles.
#[derive(Clone, Copy, PartialEq, Eq, Structural, Debug)]
pub struct ArmPose {
    pub bottom_angle: i64,
    pub top_angle: i64,
}

/// Where the middle joint sits for the given joint directions.
pub open spec fn midpoint_spec(cfg: ArmConfig, dirs: PoseDirections) -> Vec2f {
    from_angle_spec(dirs.bottom, cfg.bottom_len as int)
}

/// Where the wrist sits for the given joint directions.
pub open spec fn endpoint_spec(cfg: ArmConfig, dirs: PoseDirections) -> Vec2f {
    let mid = midpoint_spec(cfg, dirs);
    let rel = from_angle_spec(dirs.top, cfg.top_len as int);
    Vec2f { x: (mid.x + rel.x) as i64, y: (mid.y + rel.y) as i64 }
}

/// Whether a pose is free of collisions and within the joint limits.
///
/// A pose is invalid when any of these holds:
/// 1. the bottom angle lies outside the configured joint-limit interval;
/// 2. midpoint and wrist both extend past the frame's half-width, on
///    opposite sides, so the arm would straddle the drive frame;
/// 3. a circle of the intake radius centered at the wrist collides with a
///    configured collision shape.
pub open spec fn is_valid_spec(pose: ArmPose, cfg: ArmConfig, dirs: PoseDirections) -> bool {
    if pose.bottom_angle < cfg.min_bottom_angle || pose.bottom_angle > cfg.max_bottom_angle {
        false
    } else {
        let mid = midpoint_spec(cfg, dirs);
        let end = endpoint_spec(cfg, dirs);
        let endpoint_extent = abs_i(end.x as int) + cfg.intake_rad;
        let midpoint_extent = abs_i(mid.x as int) + cfg.midpoint_rad;
        if 2 * endpoint_extent >= cfg.frame_size && 2 * midpoint_extent >= cfg.frame_size
            && sign_i(mid.x as int) != sign_i(end.x as int) {
            false
        } else {
            let circle = Circle { position: end, radius: cfg.intake_rad };
            !(exists|i: int|
                0 <= i < cfg.collision_rects.len() && circle_rect_collides_spec(
                    circle,
                    cfg.collision_rects[i],
                ))
        }
    }
}

impl ArmPose {
    /// Position of the middle joint; depends on the bottom joint direction
    /// and the bottom segment length alone.
    pub fn get_midpoint(&self, cfg: &ArmConfig, dirs: &PoseDirections) -> (r: Vec2f)
        requires
            cfg.wf(),
            dirs.wf(),
        ensures
            r == midpoint_spec(*cfg, *dirs),
            r.bounded(COORD_LIMIT as int),
    {
        Vec2f::new_from_angle(dirs.bottom, cfg.bottom_len)
    }

    /// Position of the wrist: the midpoint plus the top segment.
    pub fn get_endpoint(&self, cfg: &ArmConfig, dirs: &PoseDirections) -> (r: Vec2f)
        requires
            cfg.wf(),
            dirs.wf(),
        ensures
            r == endpoint_spec(*cfg, *dirs),
            r.bounded(2 * COORD_LIMIT as int),
    {
        let midpoint = self.get_midpoint(cfg, dirs);
        let rel_endpoint = Vec2f::new_from_angle(dirs.top, cfg.top_len);
        midpoint.add(rel_endpoint)
    }

    /// Whether this pose is valid; see [`is_valid_spec`].
    pub fn is_valid(&self, cfg: &ArmConfig, dirs: &PoseDirections) -> (r: bool)
        requires
            cfg.wf(),
            dirs.wf(),
        ensures
            r == is_valid_spec(*self, *cfg, *dirs),
    {
        // Prevent collision with the gearbox.
        if self.bottom_angle < cfg.min_bottom_angle || self.bottom_angle > cfg.max_bottom_angle {
            return false;
        }

        let midpoint = self.get_midpoint(cfg, dirs);
        let endpoint = self.get_endpoint(cfg, dirs);

        // Prevent exiting the frame perimeter on both sides at once:
        // if both joints extend outside the perimeter on opposite sides,
        // the pose is invalid.
        let endpoint_extent = if endpoint.x >= 0 {
            endpoint.x
        } else {
            -endpoint.x
        } + cfg.intake_rad;
        let midpoint_extent = if midpoint.x >= 0 {
            midpoint.x
        } else {
            -midpoint.x
        } + cfg.midpoint_rad;
        if 2 * endpoint_extent >= cfg.frame_size && 2 * midpoint_extent >= cfg.frame_size
            && sign_i64(midpoint.x) != sign_i64(endpoint.x) {
            return false;
        }

        let circle = Circle { position: endpoint, radius: cfg.intake_rad };

        let mut i: usize = 0;
        while i < cfg.collision_rects.len()
            invariant
                0 <= i <= cfg.collision_rects.len(),
                cfg.wf(),
                circle.wf(),
                circle == (Circle {
                    position: endpoint_spec(*cfg, *dirs),
                    radius: cfg.intake_rad,
                }),
                forall|j: int|
                    0 <= j < i ==> !circle_rect_collides_spec(circle, cfg.collision_rects[j]),
            decreases cfg.collision_rects.len() - i,
        {
            if circle_rect_collides(&circle, &cfg.collision_rects[i]) {
                return false;
            }
            i += 1;
        }

        true
    }
}

} // verus!

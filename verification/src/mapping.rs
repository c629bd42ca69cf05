//! The bijection between poses and grid coordinates, and the sampled
//! construction of the passability grid.
//!
//! Each axis maps a configured angle range linearly onto the grid
//! resolution; an angle is wrapped into the range before scaling, so every
//! pose names exactly one coordinate.
use vstd::prelude::*;
use vstd::arithmetic::div_mod::{
    lemma_div_is_ordered, lemma_div_multiples_vanish, lemma_mod_bound, lemma_mod_multiples_vanish,
};
use crate::arm::{is_valid_spec, ArmConfig, ArmPose};
use crate::grid::{Grid2D, SIZE_LIMIT};
use crate::imath::abs_i;
use crate::vectors::{PoseDirections, Trig, Vec2i};

verus! {

/// Largest accepted magnitude of an angle or an angle-range end.
pub const ANGLE_LIMIT: i64 = 0x100_0000_0000_0000;

/// The per-axis angle ranges and the grid resolution they map onto.
pub struct MappingConfig {
    /// Start of the bottom joint's angle range.
    pub bottom_min: i64,
    /// End of the bottom joint's angle range.
    pub bottom_max: i64,
    /// Start of the top joint's angle range.
    pub top_min: i64,
    /// End of the top joint's angle range.
    pub top_max: i64,
    /// The grid's extent in cells.
    pub size: Vec2i,
}

impl MappingConfig {
    /// Ranges non-empty and within the angle limit, size positive and
    /// within the grid limit.
    pub open spec fn wf(self) -> bool {
        &&& -ANGLE_LIMIT <= self.bottom_min < self.bottom_max <= ANGLE_LIMIT
        &&& -ANGLE_LIMIT <= self.top_min < self.top_max <= ANGLE_LIMIT
        &&& 0 < self.size.x <= SIZE_LIMIT
        &&& 0 < self.size.y <= SIZE_LIMIT
    }
}

/// `val` wrapped into `[min, max)` by whole turns of `max - min`.
pub open spec fn wrap_spec(val: int, min: int, max: int) -> int
    recommends
        min < max,
{
    (val - min) % (max - min) + min
}

/// The remainder of `a` by `m`, non-negative as in mathematics.
fn euclid_mod(a: i64, m: i64) -> (r: i64)
    requires
        0 < m <= 2 * ANGLE_LIMIT,
        -2 * ANGLE_LIMIT <= a <= 2 * ANGLE_LIMIT,
    ensures
        r == (a as int) % (m as int),
        0 <= r < m,
{
    proof {
        lemma_mod_bound(a as int, m as int);
    }
    if a >= 0 {
        a % m
    } else {
        let k: i64 = (-a) / m + 1;
        proof {
            let na = -(a as int);
            let mi = m as int;
            assert((na / mi) * mi <= na && na < ((na / mi) + 1) * mi) by (nonlinear_arith)
                requires
                    0 < mi,
                    0 <= na,
            ;
            assert(0 <= a as int + (k as int) * mi && a as int + (k as int) * mi <= 2 * (
            ANGLE_LIMIT as int) + mi && 0 <= (k as int) * mi && (k as int) * mi <= na + mi)
                by (nonlinear_arith)
                requires
                    k as int == na / mi + 1,
                    (na / mi) * mi <= na,
                    na < (k as int) * mi,
                    na == -(a as int),
                    0 < mi,
                    -2 * ANGLE_LIMIT <= a <= 0,
            ;
            lemma_mod_multiples_vanish(k as int, a as int, m as int);
        }
        let shifted: i64 = a + k * m;
        proof {
            assert(shifted as int == (m as int) * (k as int) + (a as int));
            assert((shifted as int) % (m as int) == (a as int) % (m as int));
        }
        shifted % m
    }
}

/// The pose at a grid coordinate: each axis is linear interpolation over
/// its angle range.
pub open spec fn state_to_pose_spec(x: int, y: int, cfg: MappingConfig) -> ArmPose {
    ArmPose {
        bottom_angle: (cfg.bottom_min + (cfg.bottom_max - cfg.bottom_min) * x / (
        cfg.size.x as int)) as i64,
        top_angle: (cfg.top_min + (cfg.top_max - cfg.top_min) * y / (cfg.size.y as int)) as i64,
    }
}

/// The grid coordinate of a pose: each angle is wrapped into its range,
/// and its fraction of the range is scaled to the resolution and
/// truncated.
pub open spec fn pose_to_state_spec(pose: ArmPose, cfg: MappingConfig) -> Vec2i {
    Vec2i {
        x: ((pose.bottom_angle - cfg.bottom_min) % (cfg.bottom_max - cfg.bottom_min) * (
        cfg.size.x as int) / (cfg.bottom_max - cfg.bottom_min)) as i32,
        y: ((pose.top_angle - cfg.top_min) % (cfg.top_max - cfg.top_min) * (cfg.size.y as int) / (
        cfg.top_max - cfg.top_min)) as i32,
    }
}

/// One axis of `state_to_pose`: `min` plus `x / size` of the range.
fn lerp_axis(min: i64, max: i64, x: i32, size: i32) -> (r: i64)
    requires
        -ANGLE_LIMIT <= min < max <= ANGLE_LIMIT,
        0 < size <= SIZE_LIMIT,
        0 <= x <= size,
    ensures
        r == min + (max - min) * (x as int) / (size as int),
        min <= r <= max,
{
    let range: i128 = (max as i128) - (min as i128);
    proof {
        assert(0 <= (max - min) * (x as int) <= (max - min) * (size as int) && (max - min) * (
        size as int) <= 0x400_0000_0000_0000_0000) by (nonlinear_arith)
            requires
                0 < max - min <= 2 * ANGLE_LIMIT,
                0 <= x <= size <= SIZE_LIMIT,
        ;
        lemma_div_is_ordered((max - min) * (x as int), (max - min) * (size as int), size as int);
        lemma_div_multiples_vanish(max - min, size as int);
        vstd::arithmetic::div_mod::lemma_div_pos_is_pos((max - min) * (x as int), size as int);
        assert((max - min) * (size as int) == (size as int) * (max - min));
    }
    let num: i128 = range * (x as i128);
    let q: i128 = num / (size as i128);
    min + (q as i64)
}

/// One axis of `pose_to_state`: the wrapped angle's fraction of the
/// range, scaled to the resolution.
fn project_axis(angle: i64, min: i64, max: i64, size: i32) -> (r: i32)
    requires
        -ANGLE_LIMIT <= min < max <= ANGLE_LIMIT,
        0 < size <= SIZE_LIMIT,
        -ANGLE_LIMIT <= angle <= ANGLE_LIMIT,
    ensures
        r == (angle - min) % (max - min) * (size as int) / (max - min),
        0 <= r < size,
{
    let m: i64 = euclid_mod(angle - min, max - min);
    proof {
        assert(0 <= (m as int) * (size as int) && (m as int) * (size as int) < (max - min) * (
        size as int) && (max - min) * (size as int) <= 0x400_0000_0000_0000_0000)
            by (nonlinear_arith)
            requires
                0 <= m < max - min,
                0 < size <= SIZE_LIMIT,
                max - min <= 2 * ANGLE_LIMIT,
        ;
        assert((max - min) * (size as int) == (size as int) * (max - min));
        vstd::arithmetic::div_mod::lemma_div_pos_is_pos((m as int) * (size as int), max - min);
        vstd::arithmetic::div_mod::lemma_remainder_lower((m as int) * (size as int), max - min);
        assert((m as int) * (size as int) / (max - min) < size as int) by (nonlinear_arith)
            requires
                ((m as int) * (size as int) / (max - min)) * (max - min) <= (m as int) * (
                size as int),
                (m as int) * (size as int) < (size as int) * (max - min),
                0 < max - min,
        ;
    }
    let num: i128 = (m as i128) * (size as i128);
    let q: i128 = num / ((max as i128) - (min as i128));
    q as i32
}

/// `val` wrapped into `[min, max)` by whole turns; see [`wrap_spec`].
pub fn wrap(val: i64, min: i64, max: i64) -> (r: i64)
    requires
        -ANGLE_LIMIT <= min < max <= ANGLE_LIMIT,
        -ANGLE_LIMIT <= val <= ANGLE_LIMIT,
    ensures
        r == wrap_spec(val as int, min as int, max as int),
        min <= r < max,
{
    let m = euclid_mod(val - min, max - min);
    m + min
}

/// The pose at a grid coordinate; see [`state_to_pose_spec`].
pub fn state_to_pose(x: i32, y: i32, cfg: &MappingConfig) -> (r: ArmPose)
    requires
        cfg.wf(),
        0 <= x <= cfg.size.x,
        0 <= y <= cfg.size.y,
    ensures
        r == state_to_pose_spec(x as int, y as int, *cfg),
        cfg.bottom_min <= r.bottom_angle <= cfg.bottom_max,
        cfg.top_min <= r.top_angle <= cfg.top_max,
{
    ArmPose {
        bottom_angle: lerp_axis(cfg.bottom_min, cfg.bottom_max, x, cfg.size.x),
        top_angle: lerp_axis(cfg.top_min, cfg.top_max, y, cfg.size.y),
    }
}

/// The grid coordinate of a pose; see [`pose_to_state_spec`].  The result
/// always lies within the grid's cells.
pub fn pose_to_state(pose: &ArmPose, cfg: &MappingConfig) -> (r: Vec2i)
    requires
        cfg.wf(),
        -ANGLE_LIMIT <= pose.bottom_angle <= ANGLE_LIMIT,
        -ANGLE_LIMIT <= pose.top_angle <= ANGLE_LIMIT,
    ensures
        r == pose_to_state_spec(*pose, *cfg),
        0 <= r.x < cfg.size.x,
        0 <= r.y < cfg.size.y,
{
    Vec2i {
        x: project_axis(pose.bottom_angle, cfg.bottom_min, cfg.bottom_max, cfg.size.x),
        y: project_axis(pose.top_angle, cfg.top_min, cfg.top_max, cfg.size.y),
    }
}

/// Samples pose validity over every cell of the grid: the cell at
/// `(x, y)` becomes passable exactly when the pose it maps back to is
/// valid.  The direction tables hold the fixed-point cosine and sine of
/// each column's bottom angle and each row's top angle.
pub fn build_passability(
    grid: &mut Grid2D,
    mcfg: &MappingConfig,
    acfg: &ArmConfig,
    bottom_dirs: &Vec<Trig>,
    top_dirs: &Vec<Trig>,
)
    requires
        old(grid).wf(),
        mcfg.wf(),
        acfg.wf(),
        mcfg.size == old(grid).size,
        bottom_dirs@.len() == old(grid).size.x,
        top_dirs@.len() == old(grid).size.y,
        forall|i: int| 0 <= i < bottom_dirs@.len() ==> (#[trigger] bottom_dirs@[i]).wf(),
        forall|i: int| 0 <= i < top_dirs@.len() ==> (#[trigger] top_dirs@[i]).wf(),
    ensures
        final(grid).wf(),
        final(grid).size == old(grid).size,
        final(grid).bias_x == old(grid).bias_x,
        final(grid).bias_y == old(grid).bias_y,
        forall|x: int, y: int|
            0 <= x < old(grid).size.x && 0 <= y < old(grid).size.y ==> final(grid).cell_passable(
                x,
                y,
            ) == is_valid_spec(
                state_to_pose_spec(x, y, *mcfg),
                *acfg,
                PoseDirections { bottom: bottom_dirs@[x], top: top_dirs@[y] },
            ),
{
    let mut state_y: i32 = 0;
    while state_y < grid.cell_size().y
        invariant
            grid.wf(),
            mcfg.wf(),
            acfg.wf(),
            mcfg.size == grid.size,
            grid.size == old(grid).size,
            grid.bias_x == old(grid).bias_x,
            grid.bias_y == old(grid).bias_y,
            bottom_dirs@.len() == grid.size.x,
            top_dirs@.len() == grid.size.y,
            forall|i: int| 0 <= i < bottom_dirs@.len() ==> (#[trigger] bottom_dirs@[i]).wf(),
            forall|i: int| 0 <= i < top_dirs@.len() ==> (#[trigger] top_dirs@[i]).wf(),
            0 <= state_y <= grid.size.y,
            forall|x: int, y: int|
                0 <= x < grid.size.x && 0 <= y < state_y ==> grid.cell_passable(x, y)
                    == is_valid_spec(
                    state_to_pose_spec(x, y, *mcfg),
                    *acfg,
                    PoseDirections { bottom: bottom_dirs@[x], top: top_dirs@[y] },
                ),
        decreases grid.size.y - state_y,
    {
        let mut state_x: i32 = 0;
        while state_x < grid.cell_size().x
            invariant
                grid.wf(),
                mcfg.wf(),
                acfg.wf(),
                mcfg.size == grid.size,
                grid.size == old(grid).size,
                grid.bias_x == old(grid).bias_x,
                grid.bias_y == old(grid).bias_y,
                bottom_dirs@.len() == grid.size.x,
                top_dirs@.len() == grid.size.y,
                forall|i: int| 0 <= i < bottom_dirs@.len() ==> (#[trigger] bottom_dirs@[i]).wf(),
                forall|i: int| 0 <= i < top_dirs@.len() ==> (#[trigger] top_dirs@[i]).wf(),
                0 <= state_y < grid.size.y,
                0 <= state_x <= grid.size.x,
                forall|x: int, y: int|
                    0 <= x < grid.size.x && 0 <= y < state_y ==> grid.cell_passable(x, y)
                        == is_valid_spec(
                        state_to_pose_spec(x, y, *mcfg),
                        *acfg,
                        PoseDirections { bottom: bottom_dirs@[x], top: top_dirs@[y] },
                    ),
                forall|x: int|
                    0 <= x < state_x ==> grid.cell_passable(x, state_y as int) == is_valid_spec(
                        state_to_pose_spec(x, state_y as int, *mcfg),
                        *acfg,
                        PoseDirections {
                            bottom: bottom_dirs@[x],
                            top: top_dirs@[state_y as int],
                        },
                    ),
            decreases grid.size.x - state_x,
        {
            let pose = state_to_pose(state_x, state_y, mcfg);
            let dirs = PoseDirections {
                bottom: bottom_dirs[state_x as usize],
                top: top_dirs[state_y as usize],
            };
            let valid = pose.is_valid(acfg, &dirs);
            grid.set_cell_passable(&Vec2i { x: state_x, y: state_y }, valid);
            state_x += 1;
        }
        state_y += 1;
    }
}

} // verus!

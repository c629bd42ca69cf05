use pathfinder::arm::{ArmConfig, ArmPose};
use pathfinder::collision::{circle_rect_collides, Circle, Rectangle};
use pathfinder::vectors::{PoseDirections, Trig, Vec2f, Vec2i, TRIG_SCALE};

/// No rotation: cosine one, sine zero.
fn upright() -> Trig {
    Trig { cos: TRIG_SCALE, sin: 0 }
}

/// The permitted region of the scenario: an inverted unit square
/// (half-extents one length unit of 1000) centered at the origin.
fn permitted_region() -> Rectangle {
    Rectangle {
        position: Vec2f { x: 0, y: 0 },
        size: Vec2f { x: 2000, y: 2000 },
        rotation: upright(),
        inverted: true,
    }
}

#[test]
fn inverted_rect_center_circle_fits() {
    let c = Circle { position: Vec2f { x: 0, y: 0 }, radius: 100 };
    assert!(!circle_rect_collides(&c, &permitted_region()));
}

#[test]
fn inverted_rect_near_edge_collides() {
    let c = Circle { position: Vec2f { x: 950, y: 0 }, radius: 100 };
    assert!(circle_rect_collides(&c, &permitted_region()));
}

#[test]
fn inverted_rect_outside_collides() {
    let c = Circle { position: Vec2f { x: 1500, y: 0 }, radius: 100 };
    assert!(circle_rect_collides(&c, &permitted_region()));
}

#[test]
fn normal_rect_overlap_and_miss() {
    let r = Rectangle {
        position: Vec2f { x: 0, y: 0 },
        size: Vec2f { x: 2000, y: 2000 },
        rotation: upright(),
        inverted: false,
    };
    let hit = Circle { position: Vec2f { x: 1050, y: 0 }, radius: 100 };
    assert!(circle_rect_collides(&hit, &r));
    let miss = Circle { position: Vec2f { x: 1200, y: 0 }, radius: 100 };
    assert!(!circle_rect_collides(&miss, &r));
}

#[test]
fn rotated_rect_uses_local_frame() {
    // A square turned 90 degrees is the same square.
    let r = Rectangle {
        position: Vec2f { x: 0, y: 0 },
        size: Vec2f { x: 2000, y: 400 },
        rotation: Trig { cos: 0, sin: TRIG_SCALE },
        inverted: false,
    };
    // The long axis now points along y.
    let hit = Circle { position: Vec2f { x: 0, y: 900 }, radius: 150 };
    assert!(circle_rect_collides(&hit, &r));
    let miss = Circle { position: Vec2f { x: 900, y: 0 }, radius: 150 };
    assert!(!circle_rect_collides(&miss, &r));
}

#[test]
fn vec2i_mag_is_floor_length() {
    assert_eq!(Vec2i { x: 3, y: 4 }.mag(), 5);
    assert_eq!(Vec2i { x: 1, y: 1 }.mag(), 1);
    assert_eq!(Vec2i { x: 0, y: 0 }.mag(), 0);
}

#[test]
fn vec2f_from_angle_and_rotated() {
    let right = Vec2f::new_from_angle(upright(), 500);
    assert_eq!(right, Vec2f { x: 500, y: 0 });
    let quarter = Trig { cos: 0, sin: TRIG_SCALE };
    let up = right.rotated(quarter);
    assert_eq!(up, Vec2f { x: 0, y: 500 });
    assert_eq!(up.mag_sq(), 250000);
}

fn test_config(rects: Vec<Rectangle>) -> ArmConfig {
    ArmConfig {
        bottom_len: 900,
        top_len: 760,
        intake_rad: 190,
        midpoint_rad: 80,
        frame_size: 530,
        min_bottom_angle: 436_332,  // 25 degrees in microradians
        max_bottom_angle: 2_705_260,  // 155 degrees in microradians
        collision_rects: rects,
    }
}

#[test]
fn is_valid_is_deterministic_and_honors_joint_limits() {
    let cfg = test_config(vec![]);
    // Both joints straight up.
    let up = Trig { cos: 0, sin: TRIG_SCALE };
    let dirs = PoseDirections { bottom: up, top: up };
    let pose = ArmPose { bottom_angle: 1_570_796, top_angle: 1_570_796 };
    let first = pose.is_valid(&cfg, &dirs);
    let second = pose.is_valid(&cfg, &dirs);
    assert_eq!(first, second, "validity depends on the pose and config alone");
    assert!(first);

    // A bottom angle below the joint limit is invalid outright.
    let low = ArmPose { bottom_angle: 100_000, top_angle: 1_570_796 };
    assert!(!low.is_valid(&cfg, &dirs));
}

#[test]
fn is_valid_rejects_collision_with_a_rect() {
    // A normal rectangle sitting right where the wrist ends up.
    let block = Rectangle {
        position: Vec2f { x: 0, y: 1660 },
        size: Vec2f { x: 400, y: 400 },
        rotation: upright(),
        inverted: false,
    };
    let cfg = test_config(vec![block]);
    let up = Trig { cos: 0, sin: TRIG_SCALE };
    let dirs = PoseDirections { bottom: up, top: up };
    let pose = ArmPose { bottom_angle: 1_570_796, top_angle: 1_570_796 };
    assert!(!pose.is_valid(&cfg, &dirs));

    let cfg_clear = test_config(vec![]);
    assert!(pose.is_valid(&cfg_clear, &dirs));
}

#[test]
fn arm_endpoints_follow_the_directions() {
    let cfg = test_config(vec![]);
    let up = Trig { cos: 0, sin: TRIG_SCALE };
    let right = Trig { cos: TRIG_SCALE, sin: 0 };
    let dirs = PoseDirections { bottom: up, top: right };
    let pose = ArmPose { bottom_angle: 1_570_796, top_angle: 0 };
    assert_eq!(pose.get_midpoint(&cfg, &dirs), Vec2f { x: 0, y: 900 });
    assert_eq!(pose.get_endpoint(&cfg, &dirs), Vec2f { x: 760, y: 900 });
}

use pathfinder::arm::{ArmConfig, ArmPose};
use pathfinder::grid::GridBuilder;
use pathfinder::mapping::{
    build_passability, pose_to_state, state_to_pose, wrap, MappingConfig,
};
use pathfinder::plan::{
    decode_calc_payload, encode_no_path_payload, encode_path_payload, plan_states,
};
use pathfinder::vectors::{Trig, Vec2i, TRIG_SCALE};

fn cfg_128_256() -> MappingConfig {
    MappingConfig {
        bottom_min: 0,
        bottom_max: 128_000,
        top_min: -256_000,
        top_max: 0,
        size: Vec2i { x: 128, y: 256 },
    }
}

#[test]
fn wrap_brings_angles_into_range() {
    assert_eq!(wrap(37_000, 0, 36_000), 1_000);
    assert_eq!(wrap(-1_000, 0, 36_000), 35_000);
    assert_eq!(wrap(500, 0, 36_000), 500);
    assert_eq!(wrap(0, -18_000, 18_000), 0);
}

#[test]
fn state_to_pose_interpolates_each_axis() {
    let cfg = cfg_128_256();
    let p = state_to_pose(5, 10, &cfg);
    assert_eq!(p.bottom_angle, 5_000);
    assert_eq!(p.top_angle, -256_000 + 10_000);
}

#[test]
fn pose_to_state_inverts_state_to_pose_on_cell_corners() {
    let cfg = cfg_128_256();
    for (x, y) in [(0, 0), (5, 10), (127, 255)] {
        let pose = state_to_pose(x, y, &cfg);
        let back = pose_to_state(&pose, &cfg);
        assert_eq!(back, Vec2i { x, y });
    }
}

#[test]
fn pose_to_state_wraps_out_of_range_angles() {
    let cfg = cfg_128_256();
    // One full bottom turn above the range lands on the same cell.
    let pose = ArmPose { bottom_angle: 5_000 + 128_000, top_angle: -128_000 };
    let s = pose_to_state(&pose, &cfg);
    assert_eq!(s, Vec2i { x: 5, y: 128 });
}

#[test]
fn build_passability_samples_validity_per_cell() {
    // Two cells per axis; the bottom angle of column 0 sits below the
    // joint limit, so that whole column is impassable.
    let mcfg = MappingConfig {
        bottom_min: 0,
        bottom_max: 2_000,
        top_min: 0,
        top_max: 2_000,
        size: Vec2i { x: 2, y: 2 },
    };
    let acfg = ArmConfig {
        bottom_len: 0,
        top_len: 0,
        intake_rad: 0,
        midpoint_rad: 0,
        frame_size: 1000,
        min_bottom_angle: 500,
        max_bottom_angle: 1_000_000,
        collision_rects: vec![],
    };
    let dirs = Trig { cos: TRIG_SCALE, sin: 0 };
    let bottom_dirs = vec![dirs, dirs];
    let top_dirs = vec![dirs, dirs];
    let mut b = GridBuilder::new(mcfg.size);
    b.with_bias(1, 1);
    let mut grid = b.build();
    build_passability(&mut grid, &mcfg, &acfg, &bottom_dirs, &top_dirs);
    // Column 0 maps to bottom angle 0 < 500: invalid.  Column 1 maps to
    // 1000, inside the limits, and nothing collides.
    for y in 0..2 {
        assert!(!grid.can_pass(0, y));
        assert!(grid.can_pass(1, y));
    }
}

#[test]
fn payload_codecs_are_exact() {
    let mut data = Vec::new();
    for v in [1u64, 2, 3, 4] {
        data.extend_from_slice(&v.to_be_bytes());
    }
    let c = decode_calc_payload(&data).expect("full payload");
    assert_eq!(
        (c.start_bottom, c.start_top, c.goal_bottom, c.goal_top),
        (1, 2, 3, 4)
    );
    assert!(decode_calc_payload(&data[..31].to_vec()).is_none());

    assert_eq!(encode_no_path_payload(), vec![0u8]);

    let payload = encode_path_payload(&vec![(0x0102030405060708u64, 9u64)]);
    let mut expect = vec![1u8, 0, 0, 0, 1];
    expect.extend_from_slice(&0x0102030405060708u64.to_be_bytes());
    expect.extend_from_slice(&9u64.to_be_bytes());
    assert_eq!(payload, expect);
}

#[test]
fn passability_bytes_row_major() {
    let mut b = GridBuilder::new(Vec2i { x: 3, y: 2 });
    b.with_bias(1, 1);
    let mut g = b.build();
    g.set_cell_passable(&Vec2i { x: 1, y: 0 }, false);
    g.set_cell_passable(&Vec2i { x: 2, y: 1 }, false);
    let bytes = pathfinder::plan::passability_bytes(&g);
    assert_eq!(bytes, vec![1, 0, 1, 1, 1, 0]);
}

#[test]
fn plan_states_keeps_the_requested_start_when_snapped() {
    let mut b = GridBuilder::new(Vec2i { x: 5, y: 5 });
    b.with_bias(1000, 1000);
    let mut g = b.build();
    // Make the start cell impassable so the snap has to move.
    g.set_cell_passable(&Vec2i { x: 0, y: 0 }, false);
    let start = Vec2i { x: 0, y: 0 };
    let goal = Vec2i { x: 4, y: 4 };
    let path = plan_states(&g, start, goal).expect("a plan exists");
    assert_eq!(*path.first().unwrap(), start, "the literal start leads the path");
    assert_eq!(*path.last().unwrap(), goal);

    // With a passable start nothing is inserted.
    let ok = plan_states(&g, Vec2i { x: 1, y: 1 }, goal).expect("open run");
    assert_eq!(*ok.first().unwrap(), Vec2i { x: 1, y: 1 });
    for w in ok.windows(2) {
        assert!(g.line_of_sight(&w[0], &w[1]));
    }
}

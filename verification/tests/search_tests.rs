use pathfinder::dijkstra::find_nearest_passable;
use pathfinder::grid::{Grid2D, GridBuilder};
use pathfinder::theta_star::find_path;
use pathfinder::vectors::Vec2i;

/// A grid of `w` by `h` cells, unit-scaled biases, every cell passable.
fn open_grid(w: i32, h: i32) -> Grid2D {
    let mut b = GridBuilder::new(Vec2i { x: w, y: h });
    b.with_bias(1000, 1000);
    b.build()
}

/// The scenario grid: 5 by 5 cells, all passable except the column
/// x = 2 for y in 0..=2 — a wall with a gap above it.
fn walled_grid() -> Grid2D {
    let mut g = open_grid(5, 5);
    for y in 0..3 {
        g.set_cell_passable(&Vec2i { x: 2, y }, false);
    }
    g
}

fn path_cost(g: &Grid2D, path: &[Vec2i]) -> u64 {
    let mut total = 0u64;
    for w in path.windows(2) {
        total += g.cost(&w[0], &w[1]);
    }
    total
}

#[test]
fn theta_star_crosses_the_gap_shorter_than_any_grid_path() {
    let g = walled_grid();
    let start = Vec2i { x: 0, y: 2 };
    let goal = Vec2i { x: 4, y: 2 };
    let path = find_path(&g, start, goal).expect("a path through the gap exists");

    assert_eq!(*path.first().unwrap(), start);
    assert_eq!(*path.last().unwrap(), goal);
    for w in path.windows(2) {
        assert!(g.line_of_sight(&w[0], &w[1]), "every returned segment has line of sight");
    }
    // The shortest 4-connected route around the wall takes 8 unit steps
    // (the supercover rejects runs along the y = 3 lattice line, whose
    // lower flanking cell is the wall top); any-angle must beat it.
    assert!(path_cost(&g, &path) < 8 * 1000, "cost was {}", path_cost(&g, &path));
    // The only bend points sit right above the gap in the wall.
    for p in &path[1..path.len() - 1] {
        assert_eq!(p.y, 3, "bend at {:?} should hug the gap", p);
        assert!(2 <= p.x && p.x <= 3, "bend at {:?} should hug the gap", p);
    }
}

#[test]
fn theta_star_trivial_when_start_equals_goal() {
    let g = open_grid(4, 4);
    let p = Vec2i { x: 2, y: 2 };
    let path = find_path(&g, p, p).expect("the empty journey is a path");
    assert_eq!(path, vec![p]);
}

#[test]
fn theta_star_straight_line_when_clear() {
    let g = open_grid(6, 3);
    let start = Vec2i { x: 0, y: 1 };
    let goal = Vec2i { x: 6, y: 1 };
    let path = find_path(&g, start, goal).expect("open grid");
    assert_eq!(*path.first().unwrap(), start);
    assert_eq!(*path.last().unwrap(), goal);
    assert_eq!(path_cost(&g, &path), 6 * 1000, "a clear straight run costs its length");
}

#[test]
fn theta_star_reports_no_path_across_a_full_wall() {
    let mut g = open_grid(5, 5);
    for y in 0..5 {
        g.set_cell_passable(&Vec2i { x: 2, y }, false);
    }
    let start = Vec2i { x: 0, y: 2 };
    let goal = Vec2i { x: 4, y: 2 };
    assert_eq!(find_path(&g, start, goal), None);
}

#[test]
fn nearest_passable_returns_a_passable_start_unchanged() {
    let g = walled_grid();
    let p = Vec2i { x: 1, y: 1 };
    assert_eq!(find_nearest_passable(&g, p), Some(p));
}

#[test]
fn nearest_passable_escapes_the_wall() {
    let g = walled_grid();
    let inside = Vec2i { x: 2, y: 1 };
    let out = find_nearest_passable(&g, inside).expect("passable cells exist");
    assert!(g.can_point_pass(&out));
    // The nearest passable columns are immediately left and right.
    assert!((out.x - inside.x).abs() <= 1 && (out.y - inside.y).abs() <= 1);
}

#[test]
fn nearest_passable_none_on_fully_impassable_grid() {
    let mut g = open_grid(3, 3);
    for y in 0..3 {
        for x in 0..3 {
            g.set_cell_passable(&Vec2i { x, y }, false);
        }
    }
    assert_eq!(find_nearest_passable(&g, Vec2i { x: 1, y: 1 }), None);
}

#[test]
fn line_of_sight_blocked_by_a_wall_cell() {
    let g = walled_grid();
    let a = Vec2i { x: 0, y: 2 };
    let b = Vec2i { x: 4, y: 2 };
    assert!(!g.line_of_sight(&a, &b), "the wall stands between");
    assert!(g.line_of_sight(&a, &Vec2i { x: 2, y: 4 }), "over the gap is clear");
    assert!(g.line_of_sight(&a, &a), "a point sees itself");
}

#[test]
fn cost_is_floor_of_biased_euclidean_distance() {
    let g = open_grid(8, 8);
    // A 3-4-5 triangle at bias 1000 per axis.
    assert_eq!(g.cost(&Vec2i { x: 0, y: 0 }, &Vec2i { x: 3, y: 4 }), 5000);
    assert_eq!(g.cost(&Vec2i { x: 2, y: 2 }, &Vec2i { x: 2, y: 2 }), 0);
    assert_eq!(g.cost(&Vec2i { x: 0, y: 0 }, &Vec2i { x: 1, y: 1 }), 1414);
    assert_eq!(g.heuristic(&Vec2i { x: 0, y: 0 }, &Vec2i { x: 3, y: 4 }), 5000);
}

#[test]
fn biased_axes_weigh_distance_differently() {
    let mut b = GridBuilder::new(Vec2i { x: 8, y: 8 });
    b.with_bias(3000, 1000);
    let g = b.build();
    assert_eq!(g.cost(&Vec2i { x: 0, y: 0 }, &Vec2i { x: 1, y: 0 }), 3000);
    assert_eq!(g.cost(&Vec2i { x: 0, y: 0 }, &Vec2i { x: 0, y: 1 }), 1000);
}

#[test]
fn neighbors_respect_bounds_and_visibility() {
    let g = walled_grid();
    let corner = g.get_neighbors(&Vec2i { x: 0, y: 0 });
    assert_eq!(corner.len(), 3, "a corner point has three in-bounds neighbors");
    let all = g.get_all_neighbors(&Vec2i { x: 2, y: 1 });
    assert_eq!(all.len(), 8, "the unfiltered adjacency ignores passability");
    // Next to the wall, visibility filtering drops some diagonals.
    let seen = g.get_neighbors(&Vec2i { x: 2, y: 1 });
    assert!(seen.len() < 8);
    for p in &seen {
        assert!(g.line_of_sight(&Vec2i { x: 2, y: 1 }, p));
    }
}

#[test]
fn grid_sizes_and_cells() {
    let mut g = open_grid(5, 3);
    assert_eq!(g.cell_size(), Vec2i { x: 5, y: 3 });
    assert_eq!(g.point_size(), Vec2i { x: 6, y: 4 });
    assert!(g.can_pass(0, 0));
    assert!(!g.can_pass(-1, 0));
    assert!(!g.can_pass(5, 0), "cell coordinates end one short of point coordinates");
    g.set_cell_passable(&Vec2i { x: 1, y: 2 }, false);
    assert!(!g.can_pass(1, 2));
    assert!(g.can_pass(1, 1));
}

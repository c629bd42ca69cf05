//! Planning a request end to end: snapping the start, searching, and the
//! binary payloads that carry requests and results.
//!
//! Angle values travel on the wire as 64-bit words; this module moves
//! those words without interpreting them, so the payload layout is exact
//! whatever unit the caller's angles use.
use vstd::prelude::*;
use crate::dijkstra::find_nearest_passable;
use crate::grid::{line_of_sight_spec, Grid2D};
use crate::theta_star::find_path;
use crate::vectors::Vec2i;

verus! {

/// A path of grid points from the requested start to the goal.
///
/// The start point is snapped to the nearest passable point first; when
/// the snap moved it, the requested start is kept as the path's first
/// element, ahead of the found path.  Nothing is returned when no
/// passable point is reachable from the start or the search fails.
pub fn plan_states(grid: &Grid2D, start: Vec2i, goal: Vec2i) -> (r: Option<Vec<Vec2i>>)
    requires
        grid.wf(),
        grid.in_point_bounds(start),
        grid.in_point_bounds(goal),
    ensures
        r matches Some(path) ==> {
            &&& path@.len() >= 1
            &&& path@[0] == start
            &&& path@[path@.len() - 1] == goal
            &&& forall|i: int| 0 <= i < path@.len() ==> grid.in_point_bounds(#[trigger] path@[i])
            &&& forall|i: int|
                #![trigger path@[i]]
                1 <= i < path@.len() - 1 ==> line_of_sight_spec(*grid, path@[i], path@[i + 1])
            &&& grid.cell_passable(start.x as int, start.y as int) ==> forall|i: int|
                #![trigger path@[i]]
                0 <= i < path@.len() - 1 ==> line_of_sight_spec(*grid, path@[i], path@[i + 1])
        },
        r is None && grid.cell_passable(start.x as int, start.y as int) ==> forall|p: Seq<Vec2i>|
            !crate::grid::is_grid_path(*grid, p, start, goal),
{
    match find_nearest_passable(grid, start) {
        Some(snapped) => {
            match find_path(grid, snapped, goal) {
                Some(path) => {
                    let mut path = path;
                    if start.x != snapped.x || start.y != snapped.y {
                        let ghost prev = path@;
                        path.insert(0, start);
                        proof {
                            assert(forall|i: int| 0 <= i < prev.len() ==> path@[i + 1] == prev[i]);
                        }
                    }
                    Some(path)
                },
                None => None,
            }
        },
        None => None,
    }
}

/// Big-endian bytes of a 64-bit word.
pub open spec fn be64(n: int) -> Seq<u8> {
    seq![
        ((n / 0x100_0000_0000_0000) % 256) as u8,
        ((n / 0x1_0000_0000_0000) % 256) as u8,
        ((n / 0x100_0000_0000) % 256) as u8,
        ((n / 0x1_0000_0000) % 256) as u8,
        ((n / 0x100_0000) % 256) as u8,
        ((n / 0x1_0000) % 256) as u8,
        ((n / 0x100) % 256) as u8,
        (n % 256) as u8,
    ]
}

/// The 64-bit word read from eight big-endian bytes at `off`.
pub open spec fn read_u64_be(d: Seq<u8>, off: int) -> int {
    d[off] * 0x100_0000_0000_0000 + d[off + 1] * 0x1_0000_0000_0000 + d[off + 2]
        * 0x100_0000_0000 + d[off + 3] * 0x1_0000_0000 + d[off + 4] * 0x100_0000 + d[off + 5]
        * 0x1_0000 + d[off + 6] * 0x100 + d[off + 7]
}

/// The word at byte offset `off`; see [`read_u64_be`].
#[verifier::rlimit(50)]
fn read_u64(d: &Vec<u8>, off: usize) -> (r: u64)
    requires
        off + 8 <= d@.len(),
    ensures
        r == read_u64_be(d@, off as int),
{
    let _vec_len: usize = d.len();
    let b0 = d[off] as u64;
    let b1 = d[off + 1] as u64;
    let b2 = d[off + 2] as u64;
    let b3 = d[off + 3] as u64;
    let b4 = d[off + 4] as u64;
    let b5 = d[off + 5] as u64;
    let b6 = d[off + 6] as u64;
    let b7 = d[off + 7] as u64;
    b0 * 0x100_0000_0000_0000 + b1 * 0x1_0000_0000_0000 + b2 * 0x100_0000_0000 + b3
        * 0x1_0000_0000 + b4 * 0x100_0000 + b5 * 0x1_0000 + b6 * 0x100 + b7
}

/// Appends the big-endian bytes of `v` to `out`.
fn write_u64(out: &mut Vec<u8>, v: u64)
    ensures
        final(out)@ == old(out)@ + be64(v as int),
{
    out.push(((v / 0x100_0000_0000_0000) % 256) as u8);
    out.push(((v / 0x1_0000_0000_0000) % 256) as u8);
    out.push(((v / 0x100_0000_0000) % 256) as u8);
    out.push(((v / 0x1_0000_0000) % 256) as u8);
    out.push(((v / 0x100_0000) % 256) as u8);
    out.push(((v / 0x1_0000) % 256) as u8);
    out.push(((v / 0x100) % 256) as u8);
    out.push((v % 256) as u8);
    proof {
        assert(out@ =~= old(out)@ + be64(v as int));
    }
}

/// A planning request: the start pose's and the goal pose's two angle
/// words, in order of arrival.
pub struct CalcRequest {
    pub start_bottom: u64,
    pub start_top: u64,
    pub goal_bottom: u64,
    pub goal_top: u64,
}

/// Reads a planning request payload: four big-endian 64-bit angle words.
/// A payload shorter than its four words is rejected.
pub fn decode_calc_payload(data: &Vec<u8>) -> (r: Option<CalcRequest>)
    ensures
        data@.len() >= 32 ==> (r matches Some(c) && {
            &&& c.start_bottom == read_u64_be(data@, 0)
            &&& c.start_top == read_u64_be(data@, 8)
            &&& c.goal_bottom == read_u64_be(data@, 16)
            &&& c.goal_top == read_u64_be(data@, 24)
        }),
        data@.len() < 32 ==> r is None,
{
    if data.len() < 32 {
        return None;
    }
    Some(
        CalcRequest {
            start_bottom: read_u64(data, 0),
            start_top: read_u64(data, 8),
            goal_bottom: read_u64(data, 16),
            goal_top: read_u64(data, 24),
        },
    )
}

/// The payload that reports no plan: a single zero byte.
pub fn encode_no_path_payload() -> (r: Vec<u8>)
    ensures
        r@ =~= seq![0u8],
{
    let mut out: Vec<u8> = Vec::new();
    out.push(0u8);
    out
}

/// The payload of a found plan: a one byte, the waypoint count as a
/// big-endian 32-bit word, then every waypoint's two angle words.
pub fn encode_path_payload(waypoints: &Vec<(u64, u64)>) -> (r: Vec<u8>)
    requires
        waypoints@.len() <= 0x7fff_ffff,
    ensures
        r@.len() == 5 + 16 * waypoints@.len(),
        r@.subrange(0, 5) == seq![1u8] + crate::codec::be32(waypoints@.len() as int),
        forall|j: int|
            #![trigger waypoints@[j]]
            0 <= j < waypoints@.len() ==> r@.subrange(5 + 16 * j, 13 + 16 * j) == be64(
                waypoints@[j].0 as int,
            ) && r@.subrange(13 + 16 * j, 21 + 16 * j) == be64(waypoints@[j].1 as int),
{
    let mut out: Vec<u8> = Vec::new();
    out.push(1u8);
    let count: u32 = waypoints.len() as u32;
    out.push((count / 0x100_0000) as u8);
    out.push(((count / 0x1_0000) % 256) as u8);
    out.push(((count / 0x100) % 256) as u8);
    out.push((count % 256) as u8);
    proof {
        assert(out@ =~= seq![1u8] + crate::codec::be32(waypoints@.len() as int));
    }
    let mut i: usize = 0;
    while i < waypoints.len()
        invariant
            0 <= i <= waypoints@.len(),
            waypoints@.len() <= 0x7fff_ffff,
            out@.len() == 5 + 16 * i,
            out@.subrange(0, 5) == seq![1u8] + crate::codec::be32(waypoints@.len() as int),
            forall|j: int|
                #![trigger waypoints@[j]]
                0 <= j < i ==> out@.subrange(5 + 16 * j, 13 + 16 * j) == be64(
                    waypoints@[j].0 as int,
                ) && out@.subrange(13 + 16 * j, 21 + 16 * j) == be64(waypoints@[j].1 as int),
        decreases waypoints@.len() - i,
    {
        let ghost pre = out@;
        let (a, b) = waypoints[i];
        write_u64(&mut out, a);
        write_u64(&mut out, b);
        proof {
            assert(out@.subrange(0, 5) =~= pre.subrange(0, 5));
            assert forall|j: int|
                #![trigger waypoints@[j]]
                0 <= j < i implies out@.subrange(5 + 16 * j, 13 + 16 * j) == be64(
                waypoints@[j].0 as int,
            ) && out@.subrange(13 + 16 * j, 21 + 16 * j) == be64(waypoints@[j].1 as int) by {
                assert(out@.subrange(5 + 16 * j, 13 + 16 * j) =~= pre.subrange(
                    5 + 16 * j,
                    13 + 16 * j,
                ));
                assert(out@.subrange(13 + 16 * j, 21 + 16 * j) =~= pre.subrange(
                    13 + 16 * j,
                    21 + 16 * j,
                ));
            }
            assert(out@.subrange(5 + 16 * i, 13 + 16 * i) =~= be64(waypoints@[i as int].0 as int));
            assert(out@.subrange(13 + 16 * i, 21 + 16 * i) =~= be64(
                waypoints@[i as int].1 as int,
            ));
        }
        i += 1;
    }
    out
}

/// One byte per grid cell, row-major: 1 where the cell is passable.
/// This is the tail of the grid snapshot a remote visualizer reads.
pub fn passability_bytes(grid: &Grid2D) -> (r: Vec<u8>)
    requires
        grid.wf(),
    ensures
        r@.len() == grid.size.x * grid.size.y,
        forall|x: int, y: int|
            0 <= x < grid.size.x && 0 <= y < grid.size.y ==> r@[y * grid.size.x + x] == (
            if grid.cell_passable(x, y) {
                1u8
            } else {
                0u8
            }),
{
    let mut out: Vec<u8> = Vec::new();
    let mut y: i32 = 0;
    while y < grid.cell_size().y
        invariant
            grid.wf(),
            0 <= y <= grid.size.y,
            out@.len() == y * grid.size.x,
            forall|x2: int, y2: int|
                0 <= x2 < grid.size.x && 0 <= y2 < y ==> out@[y2 * grid.size.x + x2] == (
                if grid.cell_passable(x2, y2) {
                    1u8
                } else {
                    0u8
                }),
        decreases grid.size.y - y,
    {
        let mut x: i32 = 0;
        while x < grid.cell_size().x
            invariant
                grid.wf(),
                0 <= y < grid.size.y,
                0 <= x <= grid.size.x,
                out@.len() == y * grid.size.x + x,
                forall|x2: int, y2: int|
                    0 <= x2 < grid.size.x && 0 <= y2 < y ==> out@[y2 * grid.size.x + x2] == (
                    if grid.cell_passable(x2, y2) {
                        1u8
                    } else {
                        0u8
                    }),
                forall|x2: int|
                    0 <= x2 < x ==> out@[y * grid.size.x + x2] == (
                    if grid.cell_passable(x2, y as int) {
                        1u8
                    } else {
                        0u8
                    }),
            decreases grid.size.x - x,
        {
            let b: u8 = if grid.can_pass(x, y) {
                1
            } else {
                0
            };
            out.push(b);
            proof {
                assert forall|x2: int, y2: int|
                    0 <= x2 < grid.size.x && 0 <= y2 < y implies out@[y2 * grid.size.x + x2] == (
                    if grid.cell_passable(x2, y2) {
                        1u8
                    } else {
                        0u8
                    }) by {
                    assert(0 <= y2 * grid.size.x + x2 < y * grid.size.x + x) by (nonlinear_arith)
                        requires
                            0 <= x2 < grid.size.x,
                            0 <= y2 < y,
                            0 <= x,
                    ;
                }
            }
            x += 1;
        }
        proof {
            assert((y as int + 1) * grid.size.x == y * grid.size.x + grid.size.x)
                by (nonlinear_arith);
        }
        y += 1;
    }
    proof {
        assert(grid.size.y * grid.size.x == grid.size.x * grid.size.y) by (nonlinear_arith);
    }
    out
}

} // verus!

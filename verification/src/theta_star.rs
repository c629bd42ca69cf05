//! Any-angle shortest-path search over the passability grid.
//!
//! A variant of A* in which a point's parent may be replaced by the
//! current point's own parent whenever a direct line of sight exists, so
//! paths are not restricted to grid edges.  Per search call the algorithm
//! owns an arena of one node per grid point, holding the best cost so
//! far, a closed flag and an optional parent index; parent links always
//! point at closed nodes with a line of sight to their child, so the path
//! read off at the goal is collision-free link by link.  The search
//! reaches every point connected to the start through the visibility
//! graph's single steps, so an empty frontier really means no path.
use vstd::prelude::*;
use vstd::set_lib::{lemma_int_range, lemma_len_subset, set_int_range};
use crate::grid::{
    grid_edge, is_grid_path, lemma_adjacent_candidate, line_of_sight_spec, Grid2D, COST_LIMIT,
};
use crate::imath::{lemma_sum_nonneg, lemma_sum_update, sum_u64};
use crate::pq::{pq_new, pq_pop, pq_push, pq_view, Frontier};
use crate::vectors::Vec2i;

verus! {

/// One grid point's state during a search.
#[derive(Clone, Copy)]
struct Node {
    /// Best cost from the start found so far; `u64::MAX` for unseen.
    cost: u64,
    /// The previous point on the best known path, as an arena index.
    parent: Option<usize>,
    /// Whether the point has been expanded; costs never improve after.
    closed: bool,
    /// Length of the parent chain back to the start.
    depth: u64,
}

/// The costs held in the arena, for the termination measure.
spec fn costs_of(nodes: Seq<Node>) -> Seq<u64> {
    nodes.map_values(|nd: Node| nd.cost)
}

/// A reached cost stays within the per-depth budget: each parent link
/// adds at most one step's cost.
#[verifier::opaque]
spec fn cost_within(cost: u64, depth: u64) -> bool {
    cost as int <= (depth as int) * (COST_LIMIT as int)
}

/// What a set parent link guarantees: a distinct closed node one depth
/// shallower, with a line of sight to its child.
#[verifier::opaque]
spec fn parent_ok(g: Grid2D, nodes: Seq<Node>, k: int) -> bool {
    let p = nodes[k].parent->0 as int;
    &&& 0 <= p < nodes.len()
    &&& p != k
    &&& nodes[p].closed
    &&& nodes[k].depth == nodes[p].depth + 1
    &&& nodes[k].cost < u64::MAX
    &&& line_of_sight_spec(g, g.point_of(p), g.point_of(k))
}

/// The arena's well-formedness through the whole search.
spec fn arena_inv(g: Grid2D, nodes: Seq<Node>, closed: Set<int>, start_idx: int) -> bool {
    &&& nodes.len() == g.point_count()
    &&& closed.finite()
    &&& forall|i: int| #[trigger] closed.contains(i) ==> 0 <= i < nodes.len()
    &&& forall|k: int|
        0 <= k < nodes.len() ==> ((#[trigger] nodes[k]).closed <==> closed.contains(k))
    &&& forall|k: int|
        0 <= k < nodes.len() && (#[trigger] nodes[k]).closed ==> nodes[k].depth < closed.len()
    &&& forall|k: int|
        0 <= k < nodes.len() && (#[trigger] nodes[k]).closed ==> (nodes[k].cost < u64::MAX || k
            == start_idx)
    &&& forall|k: int|
        0 <= k < nodes.len() && (#[trigger] nodes[k]).parent is Some ==> parent_ok(g, nodes, k)
    &&& forall|k: int|
        0 <= k < nodes.len() && (#[trigger] nodes[k]).cost < u64::MAX && nodes[k].parent is None
            ==> k == start_idx
    &&& forall|k: int|
        0 <= k < nodes.len() && (#[trigger] nodes[k]).cost < u64::MAX ==> cost_within(
            nodes[k].cost,
            nodes[k].depth,
        )
    &&& 0 <= start_idx < nodes.len()
    &&& nodes[start_idx].cost == 0
    &&& nodes[start_idx].parent is None
    &&& nodes[start_idx].depth == 0
}

/// What the frontier may hold: unexpanded points that are the start or
/// already have a parent.
spec fn frontier_inv(nodes: Seq<Node>, view: Map<u64, u64>, start_idx: int) -> bool {
    &&& view.dom().finite()
    &&& forall|j: u64|
        #[trigger] view.dom().contains(j) ==> j < nodes.len() && !nodes[j as int].closed && (
        j == start_idx as u64 || nodes[j as int].parent is Some)
}

/// The completeness bookkeeping: the start is expanded or waiting, every
/// reached point is expanded or waiting, and every step-neighbor of an
/// expanded point has been reached.
spec fn reach_inv(
    g: Grid2D,
    nodes: Seq<Node>,
    view: Map<u64, u64>,
    start_idx: int,
    goal_idx: int,
) -> bool {
    &&& !nodes[goal_idx].closed
    &&& nodes[start_idx].closed || view.dom().contains(start_idx as u64)
    &&& forall|k: int|
        0 <= k < nodes.len() && (#[trigger] nodes[k]).cost < u64::MAX && !nodes[k].closed
            ==> view.dom().contains(k as u64)
    &&& forall|v: int, w: Vec2i|
        0 <= v < nodes.len() && (#[trigger] nodes[v]).closed && #[trigger] grid_edge(
            g,
            g.point_of(v),
            w,
        ) ==> nodes[g.point_idx_spec(w)].cost < u64::MAX
}

/// With an empty frontier the expanded set is closed under the search
/// graph's steps, so a step path from an expanded point ends expanded.
proof fn lemma_path_closed(g: Grid2D, nodes: Seq<Node>, p: Seq<Vec2i>)
    requires
        g.wf(),
        nodes.len() == g.point_count(),
        p.len() >= 1,
        g.in_point_bounds(p[0]),
        nodes[g.point_idx_spec(p[0])].closed,
        forall|i: int| #![trigger p[i]] 0 <= i < p.len() - 1 ==> grid_edge(g, p[i], p[i + 1]),
        forall|v: int, w: Vec2i|
            0 <= v < nodes.len() && (#[trigger] nodes[v]).closed && #[trigger] grid_edge(
                g,
                g.point_of(v),
                w,
            ) ==> nodes[g.point_idx_spec(w)].cost < u64::MAX,
        forall|k: int|
            0 <= k < nodes.len() && (#[trigger] nodes[k]).cost < u64::MAX ==> nodes[k].closed,
    ensures
        g.in_point_bounds(p.last()),
        nodes[g.point_idx_spec(p.last())].closed,
    decreases p.len(),
{
    if p.len() == 1 {
    } else {
        let v0 = g.point_idx_spec(p[0]);
        g.lemma_point_idx(p[0]);
        assert(grid_edge(g, p[0], p[1]));
        assert(g.point_of(v0) == p[0]);
        assert(nodes[g.point_idx_spec(p[1])].cost < u64::MAX);
        g.lemma_point_idx(p[1]);
        assert(0 <= g.point_idx_spec(p[1]) < nodes.len());
        assert(nodes[g.point_idx_spec(p[1])].closed);
        let q = p.drop_first();
        assert(q[0] == p[1]);
        assert(forall|i: int| #![trigger q[i]] 0 <= i < q.len() - 1 ==> q[i] == p[i + 1]);
        assert forall|i: int| #![trigger q[i]] 0 <= i < q.len() - 1 implies grid_edge(
            g,
            q[i],
            q[i + 1],
        ) by {
            assert(q[i] == p[i + 1] && q[i + 1] == p[i + 2]);
            assert(grid_edge(g, p[i + 1], p[i + 2]));
        }
        lemma_path_closed(g, nodes, q);
        assert(q.last() == p.last());
    }
}

/// Walks the parent links back from `goal_idx` and returns the points
/// from the start to the goal, in order.
#[verifier::rlimit(100)]
fn extract_path(
    grid: &Grid2D,
    nodes: &Vec<Node>,
    goal_idx: usize,
    Ghost(closed): Ghost<Set<int>>,
    Ghost(start_idx): Ghost<int>,
) -> (r: Vec<Vec2i>)
    requires
        grid.wf(),
        arena_inv(*grid, nodes@, closed, start_idx),
        goal_idx < nodes@.len(),
        goal_idx as int == start_idx || nodes@[goal_idx as int].parent is Some,
    ensures
        r@.len() >= 1,
        r@[0] == grid.point_of(start_idx),
        r@[r@.len() - 1] == grid.point_of(goal_idx as int),
        forall|i: int| 0 <= i < r@.len() ==> grid.in_point_bounds(#[trigger] r@[i]),
        forall|i: int|
            #![trigger r@[i]]
            0 <= i < r@.len() - 1 ==> line_of_sight_spec(*grid, r@[i], r@[i + 1]),
        goal_idx as int == start_idx ==> r@.len() == 1,
{
    let mut cur: usize = goal_idx;
    let mut out: Vec<Vec2i> = Vec::new();
    out.push(grid.index_point(cur));
    proof {
        reveal(parent_ok);
        if goal_idx as int != start_idx {
            assert(parent_ok(*grid, nodes@, goal_idx as int));
        }
    }
    loop
        invariant_except_break
            grid.wf(),
            nodes@.len() == grid.point_count(),
            0 <= start_idx < nodes@.len(),
            nodes@[start_idx].parent is None,
            forall|k: int|
                0 <= k < nodes@.len() && (#[trigger] nodes@[k]).parent is Some ==> parent_ok(
                    *grid,
                    nodes@,
                    k,
                ),
            forall|k: int|
                0 <= k < nodes@.len() && (#[trigger] nodes@[k]).cost < u64::MAX
                    && nodes@[k].parent is None ==> k == start_idx,
            forall|k: int|
                0 <= k < nodes@.len() && (#[trigger] nodes@[k]).closed ==> (nodes@[k].cost
                    < u64::MAX || k == start_idx),
            cur < nodes@.len(),
            out@.len() >= 1,
            out@[0] == grid.point_of(cur as int),
            out@[out@.len() - 1] == grid.point_of(goal_idx as int),
            forall|i: int| 0 <= i < out@.len() ==> grid.in_point_bounds(#[trigger] out@[i]),
            forall|i: int|
                #![trigger out@[i]]
                0 <= i < out@.len() - 1 ==> line_of_sight_spec(*grid, out@[i], out@[i + 1]),
            goal_idx as int == start_idx ==> out@.len() == 1 && cur == goal_idx,
            nodes@[cur as int].cost < u64::MAX || cur as int == start_idx,
        ensures
            out@.len() >= 1,
            cur as int == start_idx,
            out@[0] == grid.point_of(cur as int),
            out@[out@.len() - 1] == grid.point_of(goal_idx as int),
            forall|i: int| 0 <= i < out@.len() ==> grid.in_point_bounds(#[trigger] out@[i]),
            forall|i: int|
                #![trigger out@[i]]
                0 <= i < out@.len() - 1 ==> line_of_sight_spec(*grid, out@[i], out@[i + 1]),
            goal_idx as int == start_idx ==> out@.len() == 1,
        decreases nodes@[cur as int].depth,
    {
        match nodes[cur].parent {
            Some(p) => {
                proof {
                    reveal(parent_ok);
                    assert(parent_ok(*grid, nodes@, cur as int));
                    assert(nodes@[p as int].closed);
                }
                let ghost prev = out@;
                let p_pos = grid.index_point(p);
                out.insert(0, p_pos);
                proof {
                    assert(forall|i: int| 0 <= i < prev.len() ==> out@[i + 1] == prev[i]);
                    assert(line_of_sight_spec(
                        *grid,
                        grid.point_of(p as int),
                        grid.point_of(cur as int),
                    ));
                }
                cur = p;
            },
            None => {
                break ;
            },
        }
    }
    out
}

/// An any-angle shortest path from `start_pos` to `goal_pos`, or nothing
/// when the frontier empties without reaching the goal.
///
/// A found path starts at `start_pos`, ends at `goal_pos`, stays on the
/// grid's points, and has a line of sight across every consecutive pair;
/// when the start equals the goal the path is that single point.  An
/// empty answer means the goal is unreachable: no sequence of single
/// visible steps leads from the start to the goal at all.
#[verifier::rlimit(100)]
pub fn find_path(grid: &Grid2D, start_pos: Vec2i, goal_pos: Vec2i) -> (r: Option<Vec<Vec2i>>)
    requires
        grid.wf(),
        grid.in_point_bounds(start_pos),
        grid.in_point_bounds(goal_pos),
    ensures
        r matches Some(path) ==> {
            &&& path@.len() >= 1
            &&& path@[0] == start_pos
            &&& path@[path@.len() - 1] == goal_pos
            &&& forall|i: int| 0 <= i < path@.len() ==> grid.in_point_bounds(#[trigger] path@[i])
            &&& forall|i: int|
                #![trigger path@[i]]
                0 <= i < path@.len() - 1 ==> line_of_sight_spec(*grid, path@[i], path@[i + 1])
        },
        start_pos == goal_pos ==> r is Some && r->0@.len() == 1,
        r is None ==> forall|p: Seq<Vec2i>| !is_grid_path(*grid, p, start_pos, goal_pos),
{
    proof {
        assert(0 < (grid.size.x as int + 1) * (grid.size.y as int + 1) <= 0x1100_0000)
            by (nonlinear_arith)
            requires
                0 < grid.size.x <= crate::grid::SIZE_LIMIT,
                0 < grid.size.y <= crate::grid::SIZE_LIMIT,
        ;
    }
    let n: usize = ((grid.size.x as usize) + 1) * ((grid.size.y as usize) + 1);

    let mut nodes: Vec<Node> = Vec::new();
    let mut i: usize = 0;
    while i < n
        invariant
            0 <= i <= n,
            nodes@.len() == i,
            forall|j: int|
                0 <= j < i ==> (#[trigger] nodes@[j]) == (Node {
                    cost: u64::MAX,
                    parent: None,
                    closed: false,
                    depth: 0,
                }),
        decreases n - i,
    {
        nodes.push(Node { cost: u64::MAX, parent: None, closed: false, depth: 0 });
        i += 1;
    }

    let start_idx: usize = grid.point_index(&start_pos);
    let goal_idx: usize = grid.point_index(&goal_pos);
    nodes[start_idx] = Node { cost: 0, parent: None, closed: false, depth: 0 };
    let ghost mut closed_set: Set<int> = Set::empty();

    let mut open: Frontier = pq_new();
    let h0 = grid.heuristic(&start_pos, &goal_pos);
    pq_push(&mut open, start_idx as u64, u64::MAX - h0);
    proof {
        reveal(parent_ok);
        reveal(cost_within);
        grid.lemma_point_idx(start_pos);
        grid.lemma_point_idx(goal_pos);
        assert(pq_view(open).dom() =~= Set::<u64>::empty().insert(start_idx as u64));
        assert(arena_inv(*grid, nodes@, closed_set, start_idx as int));
    }

    loop
        invariant
            grid.wf(),
            grid.in_point_bounds(start_pos),
            grid.in_point_bounds(goal_pos),
            n == grid.point_count(),
            n <= 0x1100_0000,
            start_idx as int == grid.point_idx_spec(start_pos),
            goal_idx as int == grid.point_idx_spec(goal_pos),
            grid.point_of(start_idx as int) == start_pos,
            grid.point_of(goal_idx as int) == goal_pos,
            start_idx < n,
            goal_idx < n,
            arena_inv(*grid, nodes@, closed_set, start_idx as int),
            frontier_inv(nodes@, pq_view(open), start_idx as int),
            reach_inv(*grid, nodes@, pq_view(open), start_idx as int, goal_idx as int),
            start_pos == goal_pos ==> pq_view(open).dom() =~= Set::<u64>::empty().insert(
                start_idx as u64,
            ),
        decreases sum_u64(costs_of(nodes@)), pq_view(open).dom().len(),
    {
        let ghost head_sum = sum_u64(costs_of(nodes@));
        let ghost head_view = pq_view(open);
        match pq_pop(&mut open) {
            None => {
                proof {
                    if start_pos == goal_pos {
                        assert(head_view.dom().contains(start_idx as u64));
                    }
                    // The frontier is empty: every reached point is
                    // expanded, the start among them, and no step leaves
                    // the expanded set — so no step path reaches the
                    // goal, which is not expanded.
                    assert(nodes@[start_idx as int].closed) by {
                        assert(!head_view.dom().contains(start_idx as u64));
                    }
                    assert forall|k: int|
                        0 <= k < nodes@.len() && (#[trigger] nodes@[k]).cost < u64::MAX
                            implies nodes@[k].closed by {
                        if !nodes@[k].closed {
                            assert(head_view.dom().contains(k as u64));
                        }
                    }
                    lemma_no_path(
                        *grid,
                        nodes@,
                        start_idx as int,
                        goal_idx as int,
                        start_pos,
                        goal_pos,
                    );
                }
                return None;
            },
            Some((cur_u, _prio)) => {
                let cur: usize = cur_u as usize;
                let current_pos = grid.index_point(cur);
                if current_pos.x == goal_pos.x && current_pos.y == goal_pos.y {
                    proof {
                        assert(current_pos == goal_pos);
                        grid.lemma_point_idx(current_pos);
                    }
                    let path = extract_path(
                        grid,
                        &nodes,
                        cur,
                        Ghost(closed_set),
                        Ghost(start_idx as int),
                    );
                    return Some(path);
                }
                proof {
                    if start_pos == goal_pos {
                        assert(head_view.dom().contains(cur_u));
                        assert(cur_u == start_idx as u64);
                        assert(false);
                    }
                    // The popped point is not the goal.
                    assert(cur != goal_idx) by {
                        if cur == goal_idx {
                            assert(current_pos == goal_pos);
                        }
                    }
                }

                // Expand: close the current node.
                let ghost pre_close = nodes@;
                let cur_node = nodes[cur];
                nodes[cur] = Node {
                    cost: cur_node.cost,
                    parent: cur_node.parent,
                    closed: true,
                    depth: cur_node.depth,
                };
                proof {
                    assert(!closed_set.contains(cur as int));
                    lemma_close_facts(*grid, pre_close, nodes@, closed_set, cur, start_idx as int);
                    closed_set = closed_set.insert(cur as int);
                    assert(costs_of(nodes@) =~= costs_of(pre_close));
                    assert(pq_view(open).dom().len() < head_view.dom().len());
                    assert forall|v: int, w: Vec2i|
                        0 <= v < nodes@.len() && (#[trigger] nodes@[v]).closed && v != cur as int
                            && #[trigger] grid_edge(*grid, grid.point_of(v), w) implies nodes@[
                    grid.point_idx_spec(w)].cost < u64::MAX by {
                        grid.lemma_point_idx(w);
                        assert(pre_close[v].closed);
                        assert(grid_edge(*grid, grid.point_of(v), w));
                        assert(pre_close[grid.point_idx_spec(w)].cost < u64::MAX);
                    }
                }

                let neighbors = grid.get_neighbors(&current_pos);
                let mut k: usize = 0;
                while k < neighbors.len()
                    invariant
                        grid.wf(),
                        grid.in_point_bounds(start_pos),
                        grid.in_point_bounds(goal_pos),
                        n == grid.point_count(),
                        n <= 0x1100_0000,
                        start_idx < n,
                        goal_idx < n,
                        goal_idx as int == grid.point_idx_spec(goal_pos),
                        grid.point_of(goal_idx as int) == goal_pos,
                        arena_inv(*grid, nodes@, closed_set, start_idx as int),
                        frontier_inv(nodes@, pq_view(open), start_idx as int),
                        cur < n,
                        cur != goal_idx,
                        nodes@[cur as int].closed,
                        current_pos == grid.point_of(cur as int),
                        grid.in_point_bounds(current_pos),
                        0 <= k <= neighbors@.len(),
                        forall|j: int|
                            0 <= j < neighbors@.len() ==> grid.neighbor_ok(
                                current_pos,
                                #[trigger] neighbors@[j],
                            ) && crate::grid::is_adjacent(current_pos, neighbors@[j]),
                        forall|j: int|
                            0 <= j < 9 && grid.neighbor_ok(
                                current_pos,
                                #[trigger] crate::grid::neighbor_at(current_pos, j),
                            ) ==> neighbors@.contains(crate::grid::neighbor_at(current_pos, j)),
                        forall|j: int|
                            #![trigger neighbors@[j]]
                            0 <= j < k ==> nodes@[grid.point_idx_spec(neighbors@[j])].cost
                                < u64::MAX,
                        !nodes@[goal_idx as int].closed,
                        nodes@[start_idx as int].closed || pq_view(open).dom().contains(
                            start_idx as u64,
                        ),
                        forall|j: int|
                            0 <= j < n && (#[trigger] nodes@[j]).cost < u64::MAX
                                && !nodes@[j].closed ==> pq_view(open).dom().contains(j as u64),
                        forall|v: int, w: Vec2i|
                            0 <= v < nodes@.len() && (#[trigger] nodes@[v]).closed && v != cur
                                as int && #[trigger] grid_edge(*grid, grid.point_of(v), w)
                                ==> nodes@[grid.point_idx_spec(w)].cost < u64::MAX,
                        sum_u64(costs_of(nodes@)) <= head_sum,
                        sum_u64(costs_of(nodes@)) == head_sum ==> pq_view(open).dom().len()
                            < head_view.dom().len(),
                    decreases neighbors@.len() - k,
                {
                    let neighbor = neighbors[k];
                    let ghost iter_pre = nodes@;
                    let nv: usize = grid.point_index(&neighbor);
                    proof {
                        grid.lemma_point_idx(neighbor);
                        assert(closed_set.subset_of(set_int_range(0, n as int)));
                        lemma_int_range(0, n as int);
                        lemma_len_subset(closed_set, set_int_range(0, n as int));
                    }
                    if !nodes[nv].closed {
                        let old_cost = nodes[nv].cost;
                        let mut handled = false;
                        match nodes[cur].parent {
                            Some(pp) => {
                                proof {
                                    reveal(parent_ok);
                                    assert(parent_ok(*grid, nodes@, cur as int));
                                }
                                let pp_pos = grid.index_point(pp);
                                if grid.line_of_sight(&pp_pos, &neighbor) {
                                    handled = true;
                                    let edge = grid.cost(&pp_pos, &neighbor);
                                    proof {
                                        reveal(cost_within);
                                        assert(cost_within(
                                            nodes@[pp as int].cost,
                                            nodes@[pp as int].depth,
                                        )) by {
                                            if nodes@[pp as int].cost == u64::MAX {
                                                assert(pp as int == start_idx as int);
                                            }
                                        }
                                        lemma_relax_cost_fits(
                                            nodes@[pp as int].cost,
                                            nodes@[pp as int].depth,
                                            edge,
                                            closed_set.len() as int,
                                            n as int,
                                        );
                                    }
                                    let cand: u64 = nodes[pp].cost + edge;
                                    if cand < nodes[nv].cost {
                                        let ghost pre = nodes@;
                                        let d: u64 = nodes[pp].depth + 1;
                                        nodes[nv] = Node {
                                            cost: cand,
                                            parent: Some(pp),
                                            closed: false,
                                            depth: d,
                                        };
                                        proof {
                                            relax_update_facts(
                                                *grid,
                                                pre,
                                                nodes@,
                                                closed_set,
                                                start_idx as int,
                                                nv,
                                                pp,
                                                cand,
                                                d,
                                            );
                                            lemma_sum_update(costs_of(pre), nv as int, cand);
                                            assert(costs_of(nodes@) =~= costs_of(pre).update(
                                                nv as int,
                                                cand,
                                            ));
                                        }
                                    } else {
                                        proof {
                                            assert(nodes@[nv as int].cost < u64::MAX);
                                        }
                                    }
                                }
                            },
                            None => {},
                        }
                        if !handled {
                            let edge = grid.cost(&current_pos, &neighbor);
                            proof {
                                reveal(cost_within);
                                assert(cost_within(
                                    nodes@[cur as int].cost,
                                    nodes@[cur as int].depth,
                                )) by {
                                    if nodes@[cur as int].cost == u64::MAX {
                                        assert(cur as int == start_idx as int);
                                    }
                                }
                                lemma_relax_cost_fits(
                                    nodes@[cur as int].cost,
                                    nodes@[cur as int].depth,
                                    edge,
                                    closed_set.len() as int,
                                    n as int,
                                );
                            }
                            let cand: u64 = nodes[cur].cost + edge;
                            if cand < nodes[nv].cost {
                                let ghost pre = nodes@;
                                let d: u64 = nodes[cur].depth + 1;
                                nodes[nv] = Node {
                                    cost: cand,
                                    parent: Some(cur),
                                    closed: false,
                                    depth: d,
                                };
                                proof {
                                    relax_update_facts(
                                        *grid,
                                        pre,
                                        nodes@,
                                        closed_set,
                                        start_idx as int,
                                        nv,
                                        cur,
                                        cand,
                                        d,
                                    );
                                    lemma_sum_update(costs_of(pre), nv as int, cand);
                                    assert(costs_of(nodes@) =~= costs_of(pre).update(
                                        nv as int,
                                        cand,
                                    ));
                                }
                            } else {
                                proof {
                                    assert(nodes@[nv as int].cost < u64::MAX);
                                }
                            }
                        }
                        if nodes[nv].cost < old_cost {
                            proof {
                                assert(nodes@[nv as int].parent is Some) by {
                                    if nv as int == start_idx as int {
                                        assert(nodes@[nv as int].cost == 0);
                                        assert(old_cost == 0);
                                    }
                                }
                                reveal(parent_ok);
                                assert(parent_ok(*grid, nodes@, nv as int));
                                assert(nodes@[nv as int].depth as int <= closed_set.len());
                                reveal(cost_within);
                                assert(cost_within(
                                    nodes@[nv as int].cost,
                                    nodes@[nv as int].depth,
                                ));
                                lemma_priority_fits(
                                    nodes@[nv as int].cost,
                                    nodes@[nv as int].depth,
                                    closed_set.len() as int,
                                    n as int,
                                );
                            }
                            let h = grid.heuristic(&neighbor, &goal_pos);
                            let f: u64 = nodes[nv].cost + h;
                            pq_push(&mut open, nv as u64, u64::MAX - f);
                        }
                    } else {
                        proof {
                            assert(nodes@[nv as int].cost < u64::MAX) by {
                                if nv as int != start_idx as int {
                                } else {
                                    assert(nodes@[nv as int].cost == 0);
                                }
                            }
                        }
                    }
                    proof {
                        assert(nodes@[nv as int].cost < u64::MAX);
                        assert(forall|j: int|
                            0 <= j < nodes@.len() ==> (#[trigger] nodes@[j]).closed
                                == iter_pre[j].closed);
                        assert(forall|j: int|
                            0 <= j < nodes@.len() && (#[trigger] iter_pre[j]).cost < u64::MAX
                                ==> nodes@[j].cost < u64::MAX);
                        assert forall|j: int|
                            #![trigger neighbors@[j]]
                            0 <= j < k + 1 implies nodes@[grid.point_idx_spec(neighbors@[j])].cost
                            < u64::MAX by {
                            if j < k {
                                grid.lemma_point_idx(neighbors@[j]);
                                assert(iter_pre[grid.point_idx_spec(neighbors@[j])].cost
                                    < u64::MAX);
                            } else {
                                assert(neighbors@[j] == neighbor);
                                assert(grid.point_idx_spec(neighbors@[j]) == nv as int);
                            }
                        }
                        assert forall|v: int, w: Vec2i|
                            0 <= v < nodes@.len() && (#[trigger] nodes@[v]).closed && v != cur
                                as int && #[trigger] grid_edge(*grid, grid.point_of(v), w)
                            implies nodes@[grid.point_idx_spec(w)].cost < u64::MAX by {
                            assert(grid.in_point_bounds(w));
                            grid.lemma_point_idx(w);
                            assert(iter_pre[v].closed);
                            assert(grid_edge(*grid, grid.point_of(v), w));
                            assert(iter_pre[grid.point_idx_spec(w)].cost < u64::MAX);
                        }
                    }
                    k += 1;
                }
                proof {
                    lemma_sum_nonneg(costs_of(nodes@));
                    lemma_expanded_edges(*grid, nodes@, cur as int, current_pos, neighbors@);
                }
            },
        }
    }
}

/// Closing an unexpanded frontier node keeps the arena well-formed and
/// leaves every cost in place.
#[verifier::rlimit(100)]
#[verifier::spinoff_prover]
proof fn lemma_close_facts(
    g: Grid2D,
    pre: Seq<Node>,
    post: Seq<Node>,
    closed_pre: Set<int>,
    cur: usize,
    start_idx: int,
)
    requires
        arena_inv(g, pre, closed_pre, start_idx),
        (cur as int) < pre.len(),
        !pre[cur as int].closed,
        !closed_pre.contains(cur as int),
        cur as int == start_idx || pre[cur as int].parent is Some,
        post == pre.update(
            cur as int,
            Node {
                cost: pre[cur as int].cost,
                parent: pre[cur as int].parent,
                closed: true,
                depth: pre[cur as int].depth,
            },
        ),
    ensures
        arena_inv(g, post, closed_pre.insert(cur as int), start_idx),
{
    let closed = closed_pre.insert(cur as int);
    assert(post[cur as int].depth < closed.len()) by {
        reveal(parent_ok);
        if cur as int != start_idx {
            assert(pre[cur as int].parent is Some);
            assert(parent_ok(g, pre, cur as int));
        }
    }
    assert(post[cur as int].cost < u64::MAX || cur as int == start_idx) by {
        reveal(parent_ok);
        if cur as int != start_idx {
            assert(parent_ok(g, pre, cur as int));
        }
    }
    assert forall|k: int|
        0 <= k < post.len() && (#[trigger] post[k]).parent is Some implies parent_ok(
        g,
        post,
        k,
    ) by {
        reveal(parent_ok);
        assert(parent_ok(g, pre, k));
    }
}

/// When every reached point is expanded, the start is expanded, the
/// goal is not, and expansion never leaves the reached set, then no step
/// path joins the start to the goal.
#[verifier::rlimit(100)]
#[verifier::spinoff_prover]
proof fn lemma_no_path(
    g: Grid2D,
    nodes: Seq<Node>,
    start_idx: int,
    goal_idx: int,
    start_pos: Vec2i,
    goal_pos: Vec2i,
)
    requires
        g.wf(),
        nodes.len() == g.point_count(),
        0 <= start_idx < nodes.len(),
        0 <= goal_idx < nodes.len(),
        g.in_point_bounds(start_pos),
        g.point_idx_spec(start_pos) == start_idx,
        g.point_idx_spec(goal_pos) == goal_idx,
        nodes[start_idx].closed,
        !nodes[goal_idx].closed,
        forall|k: int|
            0 <= k < nodes.len() && (#[trigger] nodes[k]).cost < u64::MAX ==> nodes[k].closed,
        forall|v: int, w: Vec2i|
            0 <= v < nodes.len() && (#[trigger] nodes[v]).closed && #[trigger] grid_edge(
                g,
                g.point_of(v),
                w,
            ) ==> nodes[g.point_idx_spec(w)].cost < u64::MAX,
    ensures
        forall|p: Seq<Vec2i>| !is_grid_path(g, p, start_pos, goal_pos),
{
    assert forall|p: Seq<Vec2i>| !is_grid_path(g, p, start_pos, goal_pos) by {
        if is_grid_path(g, p, start_pos, goal_pos) {
            assert(p[0] == start_pos);
            lemma_path_closed(g, nodes, p);
            assert(nodes[goal_idx].closed);
        }
    }
}

/// Once a point's expansion has touched all of its listed neighbors,
/// every step-neighbor of every expanded point is reached.
#[verifier::rlimit(100)]
#[verifier::spinoff_prover]
proof fn lemma_expanded_edges(
    g: Grid2D,
    nodes: Seq<Node>,
    cur: int,
    current_pos: Vec2i,
    neighbors: Seq<Vec2i>,
)
    requires
        g.wf(),
        nodes.len() == g.point_count(),
        0 <= cur < nodes.len(),
        current_pos == g.point_of(cur),
        g.in_point_bounds(current_pos),
        forall|j: int|
            0 <= j < 9 && g.neighbor_ok(
                current_pos,
                #[trigger] crate::grid::neighbor_at(current_pos, j),
            ) ==> neighbors.contains(crate::grid::neighbor_at(current_pos, j)),
        forall|j: int|
            #![trigger neighbors[j]]
            0 <= j < neighbors.len() ==> nodes[g.point_idx_spec(neighbors[j])].cost < u64::MAX,
        forall|v: int, w: Vec2i|
            0 <= v < nodes.len() && (#[trigger] nodes[v]).closed && v != cur
                && #[trigger] grid_edge(g, g.point_of(v), w) ==> nodes[g.point_idx_spec(w)].cost
                < u64::MAX,
    ensures
        forall|v: int, w: Vec2i|
            0 <= v < nodes.len() && (#[trigger] nodes[v]).closed && #[trigger] grid_edge(
                g,
                g.point_of(v),
                w,
            ) ==> nodes[g.point_idx_spec(w)].cost < u64::MAX,
{
    assert forall|v: int, w: Vec2i|
        0 <= v < nodes.len() && (#[trigger] nodes[v]).closed && #[trigger] grid_edge(
            g,
            g.point_of(v),
            w,
        ) implies nodes[g.point_idx_spec(w)].cost < u64::MAX by {
        if v == cur {
            lemma_adjacent_candidate(current_pos, w);
            let j = choose|j: int|
                0 <= j < 9 && #[trigger] crate::grid::neighbor_at(current_pos, j) == w;
            assert(g.neighbor_ok(current_pos, crate::grid::neighbor_at(current_pos, j)));
            assert(neighbors.contains(w));
            let jj = choose|jj: int| 0 <= jj < neighbors.len() && neighbors[jj] == w;
            assert(nodes[g.point_idx_spec(neighbors[jj])].cost < u64::MAX);
        }
    }
}

/// A relaxed cost — a bounded parent cost plus one step — stays within
/// the machine word and within the per-depth budget.
proof fn lemma_relax_cost_fits(pcost: u64, pdepth: u64, edge: u64, closed_len: int, n: int)
    requires
        pcost as int <= (pdepth as int) * (COST_LIMIT as int),
        pdepth < closed_len,
        closed_len <= n,
        n <= 0x1100_0000,
        edge < COST_LIMIT,
    ensures
        (pcost as int + edge as int) < u64::MAX as int,
        pcost as int + edge as int <= ((pdepth as int) + 1) * (COST_LIMIT as int),
        pdepth as int + 1 <= u64::MAX,
{
    assert((pdepth as int) * (COST_LIMIT as int) + COST_LIMIT as int == ((pdepth as int) + 1) * (
    COST_LIMIT as int)) by (nonlinear_arith);
    assert(((pdepth as int) + 1) * (COST_LIMIT as int) <= n * (COST_LIMIT as int))
        by (nonlinear_arith)
        requires
            pdepth as int + 1 <= n,
    ;
    assert(n * (COST_LIMIT as int) <= 0x1100_0000 * (COST_LIMIT as int)) by (nonlinear_arith)
        requires
            0 <= n <= 0x1100_0000,
    ;
}

/// A waiting point's cost plus its heuristic still fits in the word.
proof fn lemma_priority_fits(cost: u64, depth: u64, closed_len: int, n: int)
    requires
        cost as int <= (depth as int) * (COST_LIMIT as int),
        depth as int <= closed_len,
        closed_len <= n,
        n <= 0x1100_0000,
    ensures
        (cost as int + COST_LIMIT as int) < u64::MAX as int,
{
    assert((depth as int) * (COST_LIMIT as int) <= n * (COST_LIMIT as int)) by (nonlinear_arith)
        requires
            0 <= depth as int <= n,
    ;
    assert(n * (COST_LIMIT as int) <= 0x1100_0000 * (COST_LIMIT as int)) by (nonlinear_arith)
        requires
            0 <= n <= 0x1100_0000,
    ;
}

/// After a relaxation writes a fresh cost, parent and depth into the
/// arena, the arena invariant still holds and nothing else changed.
#[verifier::rlimit(100)]
#[verifier::spinoff_prover]
proof fn relax_update_facts(
    g: Grid2D,
    pre: Seq<Node>,
    post: Seq<Node>,
    closed: Set<int>,
    start_idx: int,
    nv: usize,
    pidx: usize,
    cand: u64,
    d: u64,
)
    requires
        arena_inv(g, pre, closed, start_idx),
        nv < pre.len(),
        pidx < pre.len(),
        !pre[nv as int].closed,
        pre[pidx as int].closed,
        cand < pre[nv as int].cost,
        cand < u64::MAX,
        cand as int <= (d as int) * (COST_LIMIT as int),
        d == pre[pidx as int].depth + 1,
        post == pre.update(
            nv as int,
            Node { cost: cand, parent: Some(pidx), closed: false, depth: d },
        ),
        line_of_sight_spec(g, g.point_of(pidx as int), g.point_of(nv as int)),
    ensures
        arena_inv(g, post, closed, start_idx),
        nv as int != start_idx,
        post[nv as int].cost < u64::MAX,
        forall|j: int|
            0 <= j < post.len() ==> (#[trigger] post[j]).closed == pre[j].closed,
        forall|j: int|
            0 <= j < post.len() && (#[trigger] pre[j]).cost < u64::MAX ==> post[j].cost
                < u64::MAX,
{
    assert(nv as int != start_idx) by {
        if nv as int == start_idx {
            assert(pre[nv as int].cost == 0);
        }
    }
    assert(pidx != nv);
    reveal(parent_ok);
    assert(cost_within(cand, d)) by {
        reveal(cost_within);
    }
    assert forall|k: int|
        0 <= k < post.len() && (#[trigger] post[k]).parent is Some implies parent_ok(
        g,
        post,
        k,
    ) by {
        if k == nv as int {
            assert(post[k].parent->0 == pidx);
        } else {
            assert(pre[k].parent is Some);
            assert(parent_ok(g, pre, k));
            let p = pre[k].parent->0 as int;
            assert(pre[p].closed);
            assert(p != nv as int);
        }
    }
}

} // verus!

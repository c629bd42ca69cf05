//! Uniform-cost search for the nearest passable grid point.
//!
//! From a possibly impassable start point, the search expands over the
//! unfiltered point adjacency in order of cumulative biased distance, and
//! yields the first passable point it pops.  It can cross impassable
//! territory, which is its purpose: it recovers a usable start for the
//! path search when a request begins in collision.  The search reaches
//! everything connected to the start, so an empty answer means the whole
//! reachable region is impassable.
use vstd::prelude::*;
use vstd::set_lib::{lemma_int_range, lemma_len_subset, set_int_range};
use crate::grid::{adj_step, is_adj_path_from, lemma_adjacent_candidate, Grid2D, COST_LIMIT};
use crate::imath::{lemma_sum_nonneg, lemma_sum_update, sum_u64};
use crate::pq::{pq_new, pq_pop, pq_push, pq_view, Frontier};
use crate::vectors::Vec2i;

verus! {

/// The points reached so far: those whose best cost is set.
spec fn reached(costs: Seq<u64>) -> Set<int> {
    Set::new(|v: int| 0 <= v < costs.len() && costs[v] < u64::MAX)
}

/// A reached cost stays within the budget of one step per reached point.
#[verifier::opaque]
spec fn dcost_within(cost: u64, count: int) -> bool {
    cost as int <= count * (COST_LIMIT as int)
}

/// The cost budgets of every reached point, together.
spec fn costs_bounded(costs: Seq<u64>) -> bool {
    forall|v: int|
        0 <= v < costs.len() && (#[trigger] costs[v]) < u64::MAX ==> dcost_within(
            costs[v],
            reached(costs).len() as int,
        )
}

/// The reached set is finite and no larger than the grid.
proof fn lemma_reached_len(costs: Seq<u64>, n: int)
    requires
        costs.len() == n,
        0 <= n,
    ensures
        reached(costs).finite(),
        reached(costs).len() <= n,
{
    assert(reached(costs).subset_of(set_int_range(0, n)));
    lemma_int_range(0, n);
    lemma_len_subset(reached(costs), set_int_range(0, n));
}

/// Writing an improved cost keeps every budget: a fresh point enlarges
/// the reached set by one, and an improvement only shrinks a cost.
proof fn lemma_relax_costs(pre: Seq<u64>, post: Seq<u64>, nidx: int, newc: u64)
    requires
        0 <= nidx < pre.len(),
        newc < pre[nidx],
        newc < u64::MAX,
        newc as int <= (reached(pre).len() as int + 1) * (COST_LIMIT as int),
        costs_bounded(pre),
        post == pre.update(nidx, newc),
    ensures
        costs_bounded(post),
        forall|v: int| 0 <= v < pre.len() && (#[trigger] pre[v]) < u64::MAX ==> post[v] < u64::MAX,
        sum_u64(post) < sum_u64(pre),
    decreases 0int,
{
    lemma_reached_len(pre, pre.len() as int);
    lemma_reached_len(post, post.len() as int);
    lemma_sum_update(pre, nidx, newc);
    let cpre = reached(pre).len() as int;
    let cpost = reached(post).len() as int;
    if pre[nidx] < u64::MAX {
        assert(reached(post) =~= reached(pre));
    } else {
        assert(reached(post) =~= reached(pre).insert(nidx));
        assert(cpost == cpre + 1);
    }
    assert forall|v: int|
        0 <= v < post.len() && (#[trigger] post[v]) < u64::MAX implies dcost_within(
        post[v],
        cpost,
    ) by {
        reveal(dcost_within);
        if v == nidx {
            assert((cpre + 1) * (COST_LIMIT as int) <= cpost * (COST_LIMIT as int) || pre[nidx]
                < u64::MAX) by (nonlinear_arith)
                requires
                    cpre + 1 <= cpost || pre[nidx] < u64::MAX,
                    0 < COST_LIMIT,
            ;
            if pre[nidx] < u64::MAX {
                assert(dcost_within(pre[nidx], cpre));
            }
        } else {
            assert(pre[v] < u64::MAX);
            assert(dcost_within(pre[v], cpre));
            assert(cpre * (COST_LIMIT as int) <= cpost * (COST_LIMIT as int)) by (nonlinear_arith)
                requires
                    cpre <= cpost,
                    0 < COST_LIMIT,
            ;
        }
    }
}

/// A reached cost plus one step fits the word and the next budget.
proof fn lemma_step_cost_fits(cost: u64, count: int, edge: u64, n: int)
    requires
        dcost_within(cost, count),
        0 <= count <= n,
        n <= 0x1100_0000,
        edge < COST_LIMIT,
    ensures
        (cost as int + edge as int) < u64::MAX as int,
        cost as int + edge as int <= (count + 1) * (COST_LIMIT as int),
{
    reveal(dcost_within);
    assert(count * (COST_LIMIT as int) + COST_LIMIT as int == (count + 1) * (COST_LIMIT as int))
        by (nonlinear_arith);
    assert((count + 1) * (COST_LIMIT as int) <= (n + 1) * (COST_LIMIT as int))
        by (nonlinear_arith)
        requires
            count + 1 <= n + 1,
            0 < COST_LIMIT,
    ;
    assert((n + 1) * (COST_LIMIT as int) <= 0x1100_0001 * (COST_LIMIT as int))
        by (nonlinear_arith)
        requires
            0 <= n <= 0x1100_0000,
    ;
}

/// When every reached point has been expanded, expansion never leaves
/// the reached set, and every expanded point is impassable, a walk from
/// the reached start ends on an impassable point.
#[verifier::rlimit(100)]
#[verifier::spinoff_prover]
proof fn lemma_adj_path_impassable(g: Grid2D, costs: Seq<u64>, expanded: Set<int>, p: Seq<Vec2i>)
    requires
        g.wf(),
        costs.len() == g.point_count(),
        p.len() >= 1,
        g.in_point_bounds(p[0]),
        costs[g.point_idx_spec(p[0])] < u64::MAX,
        forall|i: int| #![trigger p[i]] 0 <= i < p.len() - 1 ==> adj_step(g, p[i], p[i + 1]),
        forall|k: int|
            0 <= k < costs.len() && (#[trigger] costs[k]) < u64::MAX ==> expanded.contains(k),
        forall|v: int|
            #[trigger] expanded.contains(v) ==> 0 <= v < costs.len() && !g.cell_passable(
                g.point_of(v).x as int,
                g.point_of(v).y as int,
            ),
        forall|v: int, w: Vec2i|
            #[trigger] expanded.contains(v) && #[trigger] adj_step(g, g.point_of(v), w)
                ==> costs[g.point_idx_spec(w)] < u64::MAX,
    ensures
        g.in_point_bounds(p.last()),
        !g.cell_passable(p.last().x as int, p.last().y as int),
    decreases p.len(),
{
    let v0 = g.point_idx_spec(p[0]);
    g.lemma_point_idx(p[0]);
    assert(expanded.contains(v0));
    assert(g.point_of(v0) == p[0]);
    if p.len() == 1 {
    } else {
        assert(adj_step(g, p[0], p[1]));
        assert(costs[g.point_idx_spec(p[1])] < u64::MAX);
        g.lemma_point_idx(p[1]);
        let q = p.drop_first();
        assert(q[0] == p[1]);
        assert forall|i: int| #![trigger q[i]] 0 <= i < q.len() - 1 implies adj_step(
            g,
            q[i],
            q[i + 1],
        ) by {
            assert(q[i] == p[i + 1] && q[i + 1] == p[i + 2]);
            assert(adj_step(g, p[i + 1], p[i + 2]));
        }
        lemma_adj_path_impassable(g, costs, expanded, q);
        assert(q.last() == p.last());
    }
}

/// The nearest passable grid point reachable from `start_pos`, by
/// cumulative biased distance; the start itself when it is passable, and
/// nothing exactly when every point connected to the start is
/// impassable.
#[verifier::rlimit(100)]
pub fn find_nearest_passable(grid: &Grid2D, start_pos: Vec2i) -> (r: Option<Vec2i>)
    requires
        grid.wf(),
        grid.in_point_bounds(start_pos),
    ensures
        match r {
            Some(p) => grid.in_point_bounds(p) && grid.cell_passable(p.x as int, p.y as int),
            None => !grid.cell_passable(start_pos.x as int, start_pos.y as int),
        },
        grid.cell_passable(start_pos.x as int, start_pos.y as int) ==> r == Some(start_pos),
        r is None ==> forall|p: Seq<Vec2i>|
            #![trigger is_adj_path_from(*grid, p, start_pos)]
            is_adj_path_from(*grid, p, start_pos) ==> !grid.cell_passable(
                p.last().x as int,
                p.last().y as int,
            ),
{
    // A passable start is its own nearest passable point: the search
    // would pop it first and expand nothing.
    if grid.can_point_pass(&start_pos) {
        return Some(start_pos);
    }

    proof {
        assert(0 < (grid.size.x as int + 1) * (grid.size.y as int + 1) <= 0x1100_0000)
            by (nonlinear_arith)
            requires
                0 < grid.size.x <= crate::grid::SIZE_LIMIT,
                0 < grid.size.y <= crate::grid::SIZE_LIMIT,
        ;
    }
    let n: usize = ((grid.size.x as usize) + 1) * ((grid.size.y as usize) + 1);

    let mut cost_so_far: Vec<u64> = Vec::new();
    let mut i: usize = 0;
    while i < n
        invariant
            0 <= i <= n,
            cost_so_far@.len() == i,
            forall|j: int| 0 <= j < i ==> cost_so_far@[j] == u64::MAX,
        decreases n - i,
    {
        cost_so_far.push(u64::MAX);
        i += 1;
    }

    let mut open: Frontier = pq_new();
    let start_idx: usize = grid.point_index(&start_pos);
    cost_so_far[start_idx] = 0;
    pq_push(&mut open, start_idx as u64, u64::MAX);
    let ghost mut expanded: Set<int> = Set::empty();
    proof {
        assert(costs_bounded(cost_so_far@)) by {
            reveal(dcost_within);
        }
    }

    loop
        invariant
            grid.wf(),
            grid.in_point_bounds(start_pos),
            !grid.cell_passable(start_pos.x as int, start_pos.y as int),
            cost_so_far@.len() == n,
            n == grid.point_count(),
            n <= 0x1100_0000,
            start_idx < n,
            start_idx as int == grid.point_idx_spec(start_pos),
            cost_so_far@[start_idx as int] < u64::MAX,
            costs_bounded(cost_so_far@),
            pq_view(open).dom().finite(),
            forall|j: u64|
                #[trigger] pq_view(open).dom().contains(j) ==> j < n as u64 && cost_so_far@[
                j as int] < u64::MAX,
            expanded.finite(),
            forall|v: int|
                #[trigger] expanded.contains(v) ==> 0 <= v < n && cost_so_far@[v] < u64::MAX
                    && !grid.cell_passable(
                    grid.point_of(v).x as int,
                    grid.point_of(v).y as int,
                ),
            forall|k: int|
                0 <= k < n && (#[trigger] cost_so_far@[k]) < u64::MAX ==> expanded.contains(k)
                    || pq_view(open).dom().contains(k as u64),
            forall|v: int, w: Vec2i|
                #[trigger] expanded.contains(v) && #[trigger] adj_step(
                    *grid,
                    grid.point_of(v),
                    w,
                ) ==> cost_so_far@[grid.point_idx_spec(w)] < u64::MAX,
        decreases sum_u64(cost_so_far@), pq_view(open).dom().len(),
    {
        let ghost head_sum = sum_u64(cost_so_far@);
        let ghost head_view = pq_view(open);
        match pq_pop(&mut open) {
            Some((idx_u, _prio)) => {
                let idx: usize = idx_u as usize;
                let pos = grid.index_point(idx);
                if grid.can_point_pass(&pos) {
                    return Some(pos);
                }

                let current_cost: u64 = cost_so_far[idx];
                let neighbors = grid.get_all_neighbors(&pos);
                let mut k: usize = 0;
                while k < neighbors.len()
                    invariant
                        grid.wf(),
                        cost_so_far@.len() == n,
                        n == grid.point_count(),
                        n <= 0x1100_0000,
                        start_idx < n,
                        cost_so_far@[start_idx as int] < u64::MAX,
                        costs_bounded(cost_so_far@),
                        current_cost < u64::MAX,
                        current_cost == cost_so_far@[idx as int],
                        pq_view(open).dom().finite(),
                        forall|j: u64|
                            #[trigger] pq_view(open).dom().contains(j) ==> j < n as u64
                                && cost_so_far@[j as int] < u64::MAX,
                        0 <= k <= neighbors@.len(),
                        idx < n,
                        grid.in_point_bounds(pos),
                        pos == grid.point_of(idx as int),
                        !grid.cell_passable(pos.x as int, pos.y as int),
                        forall|j: int|
                            0 <= j < neighbors@.len() ==> grid.any_neighbor_ok(
                                pos,
                                #[trigger] neighbors@[j],
                            ) && crate::grid::is_adjacent(pos, neighbors@[j]),
                        forall|j: int|
                            0 <= j < 9 && grid.any_neighbor_ok(
                                pos,
                                #[trigger] crate::grid::neighbor_at(pos, j),
                            ) ==> neighbors@.contains(crate::grid::neighbor_at(pos, j)),
                        forall|j: int|
                            #![trigger neighbors@[j]]
                            0 <= j < k ==> cost_so_far@[grid.point_idx_spec(neighbors@[j])]
                                < u64::MAX,
                        expanded.finite(),
                        forall|v: int|
                            #[trigger] expanded.contains(v) ==> 0 <= v < n && cost_so_far@[v]
                                < u64::MAX && !grid.cell_passable(
                                grid.point_of(v).x as int,
                                grid.point_of(v).y as int,
                            ),
                        forall|j2: int|
                            0 <= j2 < n && (#[trigger] cost_so_far@[j2]) < u64::MAX
                                ==> expanded.contains(j2) || pq_view(open).dom().contains(
                                j2 as u64,
                            ) || j2 == idx as int,
                        forall|v: int, w: Vec2i|
                            #[trigger] expanded.contains(v) && #[trigger] adj_step(
                                *grid,
                                grid.point_of(v),
                                w,
                            ) ==> cost_so_far@[grid.point_idx_spec(w)] < u64::MAX,
                        sum_u64(cost_so_far@) <= head_sum,
                        sum_u64(cost_so_far@) == head_sum ==> pq_view(open).dom().len()
                            < head_view.dom().len(),
                    decreases neighbors@.len() - k,
                {
                    let neighbor = neighbors[k];
                    let ghost iter_pre = cost_so_far@;
                    let edge = grid.cost(&pos, &neighbor);
                    let nidx: usize = grid.point_index(&neighbor);
                    proof {
                        grid.lemma_point_idx(neighbor);
                        lemma_reached_len(cost_so_far@, n as int);
                        assert(dcost_within(current_cost, reached(cost_so_far@).len() as int))
                            by {
                            reveal(dcost_within);
                            assert(dcost_within(
                                cost_so_far@[idx as int],
                                reached(cost_so_far@).len() as int,
                            ));
                        }
                        lemma_step_cost_fits(
                            current_cost,
                            reached(cost_so_far@).len() as int,
                            edge,
                            n as int,
                        );
                    }
                    let new_cost: u64 = current_cost + edge;
                    if new_cost < cost_so_far[nidx] {
                        proof {
                            assert(nidx != idx) by {
                                if nidx == idx {
                                    assert(grid.point_of(nidx as int) == neighbor);
                                    assert(neighbor == pos);
                                }
                            }
                            lemma_relax_costs(cost_so_far@, iter_pre.update(
                                nidx as int,
                                new_cost,
                            ), nidx as int, new_cost);
                        }
                        cost_so_far[nidx] = new_cost;
                        pq_push(&mut open, nidx as u64, u64::MAX - new_cost);
                    } else {
                        proof {
                            assert(cost_so_far@[nidx as int] < u64::MAX);
                        }
                    }
                    proof {
                        assert(cost_so_far@[nidx as int] < u64::MAX);
                        assert forall|j: int|
                            #![trigger neighbors@[j]]
                            0 <= j < k + 1 implies cost_so_far@[grid.point_idx_spec(
                            neighbors@[j],
                        )] < u64::MAX by {
                            if j < k {
                                grid.lemma_point_idx(neighbors@[j]);
                                assert(iter_pre[grid.point_idx_spec(neighbors@[j])] < u64::MAX);
                            } else {
                                assert(neighbors@[j] == neighbor);
                                assert(grid.point_idx_spec(neighbors@[j]) == nidx as int);
                            }
                        }
                        assert forall|v: int, w: Vec2i|
                            #[trigger] expanded.contains(v) && #[trigger] adj_step(
                                *grid,
                                grid.point_of(v),
                                w,
                            ) implies cost_so_far@[grid.point_idx_spec(w)] < u64::MAX by {
                            grid.lemma_point_idx(w);
                            assert(iter_pre[grid.point_idx_spec(w)] < u64::MAX);
                        }
                    }
                    k += 1;
                }
                proof {
                    lemma_sum_nonneg(cost_so_far@);
                    expanded = expanded.insert(idx as int);
                    assert forall|v: int, w: Vec2i|
                        #[trigger] expanded.contains(v) && #[trigger] adj_step(
                            *grid,
                            grid.point_of(v),
                            w,
                        ) implies cost_so_far@[grid.point_idx_spec(w)] < u64::MAX by {
                        if v == idx as int {
                            lemma_adjacent_candidate(pos, w);
                            let j = choose|j: int|
                                0 <= j < 9 && #[trigger] crate::grid::neighbor_at(pos, j) == w;
                            assert(grid.any_neighbor_ok(
                                pos,
                                crate::grid::neighbor_at(pos, j),
                            ));
                            assert(neighbors@.contains(w));
                            let jj = choose|jj: int|
                                0 <= jj < neighbors@.len() && neighbors@[jj] == w;
                            assert(cost_so_far@[grid.point_idx_spec(neighbors@[jj])]
                                < u64::MAX);
                        }
                    }
                }
            },
            None => {
                proof {
                    assert forall|p: Seq<Vec2i>|
                        #![trigger is_adj_path_from(*grid, p, start_pos)]
                        is_adj_path_from(*grid, p, start_pos) implies !grid.cell_passable(
                        p.last().x as int,
                        p.last().y as int,
                    ) by {
                        assert forall|k2: int|
                            0 <= k2 < n && (#[trigger] cost_so_far@[k2])
                                < u64::MAX implies expanded.contains(k2) by {
                            if !expanded.contains(k2) {
                                assert(head_view.dom().contains(k2 as u64));
                            }
                        }
                        assert(p[0] == start_pos);
                        assert(cost_so_far@[grid.point_idx_spec(p[0])] < u64::MAX);
                        lemma_adj_path_impassable(*grid, cost_so_far@, expanded, p);
                    }
                }
                return None;
            },
        }
    }
}

} // verus!

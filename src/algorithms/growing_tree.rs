//! The "Growing Tree" algorithm.

use vstd::prelude::*;
use vstd::set_lib::{lemma_int_range, lemma_len_subset, set_int_range};
use rand::rngs::StdRng;
use crate::cell::Direction;
use crate::grid::{open_sides, Coords, Grid, GridView, lemma_index_in_range, lemma_neighbor_in_bounds};
use crate::rng::{random_below, random_directions};
use crate::validate::{fully_connected, lemma_reachable_refl, lemma_reachable_symmetric, lemma_reachable_trans, lemma_step_reachable, reachable};
use super::{lemma_tree_carve, lemma_tree_done, tree_count, grows_into, is_blank, lemma_carve_grows, lemma_grid_connected, lemma_grows_into_trans, lemma_neighbors_visited_grows, lemma_reachable_grows, lemma_visited_grows, lemma_visited_reachable_grows, neighbors_visited, reached, unvisited, visited_at, visited_reachable};

verus! {

/// How the "Growing Tree" algorithm picks the next cell from its active list.
#[derive(Clone, Copy, Debug, PartialEq, Eq, Structural)]
pub enum Method {
    /// The most recently added cell, which behaves like recursive backtracking.
    Newest,
    /// The earliest added cell.
    Oldest,
    /// The cell in the middle of the list.
    Middle,
    /// A cell picked at random.
    Random,
}

/// Returns the position in a list of `len` cells that `method` picks.
pub(crate) fn pick(method: Method, len: usize, rng: &mut StdRng) -> (r: usize)
    requires
        len > 0,
    ensures
        r < len,
{
    match method {
        Method::Newest => len - 1,
        Method::Oldest => 0,
        Method::Middle => len / 2,
        Method::Random => random_below(rng, len),
    }
}

/// Every reached cell off the active list has all its neighbors visited.
pub open spec fn settled(g: GridView, start: Coords, active: Seq<Coords>) -> bool {
    forall|x: Coords| g.in_bounds(x) && #[trigger] reached(g, start, x) && !active.contains(x) ==> neighbors_visited(g, x)
}

/// The "Growing Tree" algorithm: keeps a list of active cells; repeatedly takes
/// one by `method`, carves toward a random unvisited neighbor and adds that
/// neighbor to the list, or drops the cell once it has none.
pub(crate) fn growing_tree(grid: &mut Grid, start: Coords, method: Method, rng: &mut StdRng)
    requires
        old(grid).wf(),
        old(grid)@.in_bounds(start),
    ensures
        final(grid).wf(),
        grows_into(old(grid)@, final(grid)@),
        is_blank(old(grid)@) ==> fully_connected(final(grid)@),
        is_blank(old(grid)@) && old(grid)@.width * old(grid)@.height >= 2 ==> open_sides(final(grid)@.cells) == 2 * (
        old(grid)@.width * old(grid)@.height - 1),
{
    let ghost g0 = grid@;
    let ghost track = is_blank(g0);
    let mut active: Vec<Coords> = Vec::new();
    active.push(start);
    proof {
        lemma_int_range(0, g0.cells.len() as int);
        lemma_len_subset(unvisited(g0), set_int_range(0, g0.cells.len() as int));
        lemma_reachable_refl(g0, start);
        if track {
            assert forall|c: Coords| g0.in_bounds(c) && #[trigger] visited_at(g0, c) implies reachable(g0, start, c) by {
                lemma_index_in_range(g0.width, g0.height, c);
            }
            assert forall|x: Coords| g0.in_bounds(x) && #[trigger] reached(g0, start, x) && !active@.contains(x)
                implies neighbors_visited(g0, x) by {
                lemma_index_in_range(g0.width, g0.height, x);
                assert(active@[0] == start);
            }
        }
        assert(tree_count(g0, g0, start));
    }
    while active.len() > 0
        invariant
            grid.wf(),
            g0.wf(),
            g0.in_bounds(start),
            grows_into(g0, grid@),
            unvisited(grid@).finite(),
            forall|j: int| 0 <= j < active@.len() ==> grid@.in_bounds(#[trigger] active@[j]),
            track ==> is_blank(g0),
            track ==> visited_reachable(grid@, start),
            track ==> reachable(grid@, start, start),
            track ==> forall|j: int| 0 <= j < active@.len() ==> reached(grid@, start, #[trigger] active@[j]),
            track ==> settled(grid@, start, active@),
            track ==> tree_count(g0, grid@, start),
            track ==> visited_at(grid@, start) || (grid@ == g0 && forall|j: int| 0 <= j < active@.len() ==> #[trigger] active@[j] == start),
        decreases unvisited(grid@).len(), active@.len(),
    {
        let ghost before = grid@;
        let ghost active0 = active@;
        let idx = pick(method, active.len(), rng);
        let c = active[idx];
        let dirs = random_directions(rng);
        let mut found: Option<Direction> = None;
        let mut k: usize = 0;
        while k < 4
            invariant
                grid.wf(),
                grid@ == before,
                before.in_bounds(c),
                k <= 4,
                found matches Some(d) ==> before.neighbor(c, d) matches Some(n) && !visited_at(before, n),
                found is None ==> forall|j: int| 0 <= j < k ==> match before.neighbor(c, #[trigger] dirs@[j]) {
                    Some(n) => visited_at(before, n),
                    None => true,
                },
            decreases 4 - k,
        {
            if found.is_none() {
                let d = dirs[k];
                if let Ok(n) = grid.get_next_cell_coords(c, d) {
                    proof {
                        lemma_neighbor_in_bounds(before, c, d);
                    }
                    if !grid.is_cell_visited(n) {
                        found = Some(d);
                    }
                }
            }
            k = k + 1;
        }
        match found {
            Some(d) => {
                proof {
                    lemma_carve_grows(before, c, d);
                    lemma_neighbor_in_bounds(before, c, d);
                    lemma_grows_into_trans(g0, before, before.carve(c, d));
                }
                let next = grid.carve_passage(c, d);
                if let Ok(n) = next {
                    active.push(n);
                    proof {
                        if track {
                            assert(reached(before, start, c));
                            lemma_tree_carve(g0, before, c, d, n, start);
                        }
                        let g1 = grid@;
                        let i = before.index_of(n);
                        lemma_index_in_range(before.width, before.height, n);
                        assert(unvisited(before).contains(i));
                        assert(unvisited(g1).subset_of(unvisited(before).remove(i)));
                        lemma_len_subset(unvisited(g1), unvisited(before).remove(i));
                        assert(forall|j: int| 0 <= j < active0.len() ==> #[trigger] active@[j] == active0[j]);
                        assert(active@[active@.len() - 1] == n);
                        if track {
                            lemma_reachable_grows(before, g1, start, c);
                            lemma_reachable_grows(before, g1, start, start);
                            assert(reached(before, start, c));
                            assert(reachable(before, start, c));
                            lemma_step_reachable(g1, start, c, d, n);
                            assert forall|x: Coords| g1.in_bounds(x) && #[trigger] visited_at(g1, x) && !visited_at(before, x)
                                implies reachable(g1, start, x) by {
                                if x != c && x != n {
                                    assert(g1.cell(x) == before.cell(x));
                                }
                            }
                            lemma_visited_reachable_grows(before, g1, start);
                            assert forall|j: int| 0 <= j < active@.len() implies reached(g1, start, #[trigger] active@[j]) by {
                                if j < active0.len() {
                                    if active0[j] != start {
                                        lemma_visited_grows(before, g1, active0[j]);
                                    }
                                }
                            }
                            assert forall|x: Coords| g1.in_bounds(x) && #[trigger] reached(g1, start, x) && !active@.contains(x)
                                implies neighbors_visited(g1, x) by {
                                assert(x != n);
                                if active0.contains(x) {
                                    let j = choose|j: int| 0 <= j < active0.len() && active0[j] == x;
                                    assert(active@[j] == x);
                                }
                                if x != c && x != start {
                                    assert(g1.cell(x) == before.cell(x));
                                }
                                assert(x != c) by {
                                    assert(active0[idx as int] == c);
                                    assert(active@[idx as int] == c);
                                }
                                assert(reached(before, start, x));
                                lemma_neighbors_visited_grows(before, g1, x);
                            }
                        }
                    }
                }
            },
            None => {
                let ghost active_before = active@;
                active.remove(idx);
                proof {
                    if track && !visited_at(before, start) {
                        assert forall|j: int| 0 <= j < active@.len() implies #[trigger] active@[j] == start by {
                            if j < idx {
                                assert(active@[j] == active_before[j]);
                            } else {
                                assert(active@[j] == active_before[j + 1]);
                            }
                        }
                    }
                    if track {
                        assert(neighbors_visited(before, c)) by {
                            assert forall|d: Direction| match #[trigger] before.neighbor(c, d) {
                                Some(n) => visited_at(before, n),
                                None => true,
                            } by {
                                assert(dirs@.contains(d));
                                let j = choose|j: int| 0 <= j < 4 && dirs@[j] == d;
                                assert(match before.neighbor(c, dirs@[j]) {
                                    Some(n) => visited_at(before, n),
                                    None => true,
                                });
                            }
                        }
                        assert forall|x: Coords| before.in_bounds(x) && #[trigger] reached(before, start, x) && !active@.contains(x)
                            implies neighbors_visited(before, x) by {
                            if x != c && active0.contains(x) {
                                let j = choose|j: int| 0 <= j < active0.len() && active0[j] == x;
                                if j < idx {
                                    assert(active@[j] == x);
                                } else {
                                    assert(j != idx);
                                    assert(active@[j - 1] == x);
                                }
                            }
                        }
                        assert forall|j: int| 0 <= j < active@.len() implies reached(before, start, #[trigger] active@[j]) by {
                            if j < idx {
                                assert(active@[j] == active0[j]);
                            } else {
                                assert(active@[j] == active0[j + 1]);
                            }
                        }
                    }
                    assert forall|j: int| 0 <= j < active@.len() implies before.in_bounds(#[trigger] active@[j]) by {
                        if j < idx {
                            assert(active@[j] == active0[j]);
                        } else {
                            assert(active@[j] == active0[j + 1]);
                        }
                    }
                }
            },
        }
    }
    proof {
        let g = grid@;
        if track {
            let v = Set::new(|c: Coords| g.in_bounds(c) && reached(g, start, c));
            assert forall|c: Coords, d: Direction| #![trigger v.contains(c), g.neighbor(c, d)]
                v.contains(c) && g.in_bounds(c) implies match g.neighbor(c, d) {
                    Some(n) => v.contains(n),
                    None => true,
                } by {
                lemma_neighbor_in_bounds(g, c, d);
                assert(!active@.contains(c));
                assert(neighbors_visited(g, c));
            }
            lemma_grid_connected(g, v, start);
            let origin: Coords = (0, 0);
            assert(v.contains(origin));
            assert(reachable(g, start, origin));
            lemma_reachable_symmetric(g, start, origin);
            assert forall|c: Coords| g.in_bounds(c) implies #[trigger] reachable(g, (0, 0), c) by {
                assert(v.contains(c));
                lemma_reachable_trans(g, origin, start, c);
            }
            assert(g.width * g.height > 0) by (nonlinear_arith)
                requires
                    start.0 < g.width,
                    start.1 < g.height,
            ;
            if g.width * g.height >= 2 {
                assert(visited_at(g, start)) by {
                    if !visited_at(g, start) {
                        let far: Coords = ((g.width - 1) as usize, (g.height - 1) as usize);
                        assert(g.width >= 2 || g.height >= 2) by (nonlinear_arith)
                            requires
                                g.width * g.height >= 2,
                                g.width >= 1,
                                g.height >= 1,
                        ;
                        assert(v.contains(origin) && v.contains(far));
                        lemma_index_in_range(g0.width, g0.height, origin);
                        lemma_index_in_range(g0.width, g0.height, far);
                    }
                }
                assert forall|c: Coords| g.in_bounds(c) implies #[trigger] visited_at(g, c) by {
                    assert(v.contains(c));
                }
                lemma_tree_done(g0, g, start);
            }
        }
    }
}

} // verus!

//! The "Recursive Backtracking" algorithm.

use vstd::prelude::*;
use vstd::set_lib::{lemma_int_range, lemma_len_subset, set_int_range};
use rand::rngs::StdRng;
use crate::cell::Direction;
use crate::grid::{open_sides, Coords, Grid, GridView, lemma_index_in_range, lemma_neighbor_in_bounds};
use crate::rng::random_directions;
use crate::validate::{fully_connected, lemma_reachable_refl, lemma_reachable_symmetric, lemma_reachable_trans, lemma_step_reachable, reachable};
use super::{lemma_carve_counts, grows_into, is_blank, lemma_carve_grows, lemma_grid_connected, lemma_grows_into_trans, lemma_neighbors_visited_grows, lemma_reachable_grows, lemma_visited_grows, lemma_visited_reachable_grows, neighbors_visited, unvisited, visited_at, visited_reachable};

verus! {

/// One when `c` was unvisited in `a` and is visited in `b`, else zero.
pub open spec fn became_visited(a: GridView, b: GridView, c: Coords) -> int {
    if !visited_at(a, c) && visited_at(b, c) {
        1
    } else {
        0
    }
}

/// `b` is a grid neighbor of `a`.
pub open spec fn adjacent(g: GridView, a: Coords, b: Coords) -> bool {
    exists|d: Direction| #[trigger] g.neighbor(a, d) == Some(b)
}

/// `p` leads from `c` through grid neighbors, every cell after the first being
/// in the grid and unvisited in `g`.
pub open spec fn unvisited_path(g: GridView, c: Coords, p: Seq<Coords>) -> bool {
    &&& p.len() > 0
    &&& p[0] == c
    &&& forall|i: int| 0 <= i < p.len() - 1 ==> adjacent(g, #[trigger] p[i], p[i + 1])
    &&& forall|i: int| 1 <= i < p.len() ==> g.in_bounds(#[trigger] p[i]) && !visited_at(g, p[i])
}

/// In `b`, the cell `c` and every cell visited since `a` have all their
/// neighbors visited.
pub open spec fn settled_since(a: GridView, b: GridView, c: Coords) -> bool {
    &&& neighbors_visited(b, c)
    &&& forall|x: Coords| b.in_bounds(x) && #[trigger] visited_at(b, x) && !visited_at(a, x) ==> neighbors_visited(b, x)
}

/// Along such a path, every cell has been visited once the walk from `c` is over.
proof fn lemma_unvisited_path_visited(a: GridView, b: GridView, c: Coords, p: Seq<Coords>, i: int)
    requires
        a.width == b.width,
        a.height == b.height,
        a.in_bounds(c),
        unvisited_path(a, c, p),
        1 <= i < p.len(),
        settled_since(a, b, c),
    ensures
        visited_at(b, p[i]),
    decreases i,
{
    let prev = p[i - 1];
    if i > 1 {
        lemma_unvisited_path_visited(a, b, c, p, i - 1);
        assert(a.in_bounds(prev) && !visited_at(a, prev));
    }
    assert(b.in_bounds(prev));
    assert((visited_at(b, prev) && !visited_at(a, prev)) || prev == c);
    assert(neighbors_visited(b, prev));
    assert(adjacent(a, p[i - 1], p[i]));
    let d = choose|d: Direction| #[trigger] a.neighbor(prev, d) == Some(p[i]);
    assert(b.neighbor(prev, d) == Some(p[i]));
}

/// The "Recursive Backtracking" algorithm: a depth-first walk that carves into
/// unvisited neighbors in a random order and backs up when none is left.
///
/// Every cell it reaches stays reachable from `from`, and when it returns, the
/// cell it started from and every cell it visited have all their neighbors
/// visited. Cells visited before, other than `coords`, keep their flags, and
/// each newly visited cell other than `coords` adds exactly one passage (two
/// open sides), so the added passages form a tree.
pub(crate) fn carve_passages_from(
    coords: Coords,
    grid: &mut Grid,
    rng: &mut StdRng,
    Ghost(from): Ghost<Coords>,
    Ghost(track): Ghost<bool>,
)
    requires
        old(grid).wf(),
        old(grid)@.in_bounds(coords),
        track ==> visited_reachable(old(grid)@, from) && reachable(old(grid)@, from, coords),
    ensures
        final(grid).wf(),
        grows_into(old(grid)@, final(grid)@),
        track ==> visited_reachable(final(grid)@, from),
        forall|x: Coords|
            final(grid)@.in_bounds(x) && ((#[trigger] visited_at(final(grid)@, x) && !visited_at(old(grid)@, x))
                || x == coords) ==> neighbors_visited(final(grid)@, x),
        forall|x: Coords| old(grid)@.in_bounds(x) && #[trigger] visited_at(old(grid)@, x) && x != coords
            ==> final(grid)@.cell(x) == old(grid)@.cell(x),
        visited_at(final(grid)@, coords) || final(grid)@ == old(grid)@,
        unvisited(final(grid)@).finite(),
        forall|x: Coords| final(grid)@.in_bounds(x) && #[trigger] visited_at(final(grid)@, x) && !visited_at(old(grid)@, x)
            ==> reachable(final(grid)@, coords, x),
        forall|p: Seq<Coords>| #[trigger] unvisited_path(old(grid)@, coords, p) ==> forall|i: int|
            1 <= i < p.len() ==> visited_at(final(grid)@, #[trigger] p[i]),
        open_sides(final(grid)@.cells) == open_sides(old(grid)@.cells) + 2 * (unvisited(old(grid)@).len()
            - unvisited(final(grid)@).len() - became_visited(old(grid)@, final(grid)@, coords)),
    decreases unvisited(old(grid)@).len(),
{
    let ghost g0 = grid@;
    proof {
        lemma_int_range(0, g0.cells.len() as int);
        lemma_len_subset(unvisited(g0), set_int_range(0, g0.cells.len() as int));
    }
    let dirs = random_directions(rng);
    let mut k: usize = 0;
    while k < 4
        invariant
            grid.wf(),
            g0 == old(grid)@,
            g0.wf(),
            g0.cells.len() == grid@.cells.len(),
            grid@.in_bounds(coords),
            grows_into(g0, grid@),
            unvisited(g0).finite(),
            k <= 4,
            track ==> visited_reachable(grid@, from) && reachable(grid@, from, coords),
            forall|x: Coords|
                grid@.in_bounds(x) && #[trigger] visited_at(grid@, x) && !visited_at(g0, x) && x != coords
                    ==> neighbors_visited(grid@, x),
            forall|j: int| 0 <= j < k ==> match grid@.neighbor(coords, #[trigger] dirs@[j]) {
                Some(n) => visited_at(grid@, n),
                None => true,
            },
            forall|x: Coords| g0.in_bounds(x) && #[trigger] visited_at(g0, x) && x != coords
                ==> grid@.cell(x) == g0.cell(x),
            visited_at(grid@, coords) || grid@ == g0,
            unvisited(grid@).finite(),
            forall|x: Coords| grid@.in_bounds(x) && #[trigger] visited_at(grid@, x) && !visited_at(g0, x)
                ==> reachable(grid@, coords, x),
            open_sides(grid@.cells) == open_sides(g0.cells) + 2 * (unvisited(g0).len() - unvisited(grid@).len()
                - became_visited(g0, grid@, coords)),
        decreases 4 - k,
    {
        let d = dirs[k];
        let ghost before = grid@;
        if let Ok(next) = grid.get_next_cell_coords(coords, d) {
            proof {
                lemma_neighbor_in_bounds(grid@, coords, d);
            }
            if !grid.is_cell_visited(next) {
                proof {
                    lemma_carve_grows(before, coords, d);
                    lemma_index_in_range(before.width, before.height, next);
                    lemma_grows_into_trans(g0, before, before.carve(coords, d));
                }
                if let Ok(n2) = grid.carve_passage(coords, d) {
                    let ghost g1 = grid@;
                    proof {
                        let i = before.index_of(next);
                        assert(unvisited(before).contains(i));
                        assert(unvisited(g0).contains(i));
                        lemma_len_subset(unvisited(grid@), unvisited(g0).remove(i));
                        assert(unvisited(g0).remove(i).len() == unvisited(g0).len() - 1);
                        lemma_carve_counts(before, coords, d, next);
                        let ic = before.index_of(coords);
                        lemma_index_in_range(before.width, before.height, coords);
                        crate::grid::lemma_carve_wf(before, coords, d);
                        assert(ic != i);
                        assert(unvisited(before).contains(ic) == !visited_at(before, coords));
                        assert(unvisited(before).remove(i).len() == unvisited(before).len() - 1);
                        if unvisited(before).contains(ic) {
                            assert(unvisited(before).remove(i).contains(ic));
                            assert(unvisited(g1).len() == unvisited(before).len() - 2);
                        } else {
                            assert(unvisited(before).remove(i).remove(ic) =~= unvisited(before).remove(i));
                        }
                        assert forall|x: Coords| g0.in_bounds(x) && #[trigger] visited_at(g0, x) && x != coords
                            implies g1.cell(x) == g0.cell(x) by {
                            lemma_visited_grows(g0, before, x);
                        }
                        lemma_reachable_refl(g1, coords);
                        lemma_step_reachable(g1, coords, coords, d, next);
                        assert forall|x: Coords| g1.in_bounds(x) && #[trigger] visited_at(g1, x) && !visited_at(g0, x)
                            implies reachable(g1, coords, x) by {
                            if x != coords && x != next {
                                assert(g1.cell(x) == before.cell(x));
                                assert(visited_at(before, x));
                                lemma_reachable_grows(before, g1, coords, x);
                            }
                        }
                        if track {
                            lemma_reachable_grows(before, g1, from, coords);
                            lemma_step_reachable(g1, from, coords, d, next);
                            assert forall|c: Coords| g1.in_bounds(c) && #[trigger] visited_at(g1, c) && !visited_at(
                                before,
                                c,
                            ) implies reachable(g1, from, c) by {
                                if c != coords && c != next {
                                    assert(g1.cell(c) == before.cell(c));
                                }
                            }
                            lemma_visited_reachable_grows(before, g1, from);
                        }
                    }
                    carve_passages_from(n2, grid, rng, Ghost(from), Ghost(track));
                    proof {
                        let g2 = grid@;
                        lemma_grows_into_trans(g0, g1, g2);
                        lemma_grows_into_trans(before, g1, g2);
                        if track {
                            lemma_reachable_grows(g1, g2, from, coords);
                        }
                        assert(visited_at(g1, coords));
                        assert(visited_at(g1, next));
                        lemma_reachable_grows(g1, g2, coords, next);
                        assert forall|x: Coords| g2.in_bounds(x) && #[trigger] visited_at(g2, x) && !visited_at(g0, x)
                            implies reachable(g2, coords, x) by {
                            if visited_at(g1, x) {
                                lemma_reachable_grows(g1, g2, coords, x);
                            } else {
                                assert(reachable(g2, next, x));
                                lemma_reachable_trans(g2, coords, next, x);
                            }
                        }
                        assert(g2.cell(coords) == g1.cell(coords));
                        assert forall|x: Coords| g0.in_bounds(x) && #[trigger] visited_at(g0, x) && x != coords
                            implies g2.cell(x) == g0.cell(x) by {
                            lemma_visited_grows(g0, before, x);
                            assert(x != next);
                            assert(visited_at(g1, x));
                        }
                        assert forall|x: Coords|
                            g2.in_bounds(x) && #[trigger] visited_at(g2, x) && !visited_at(g0, x) && x != coords
                                implies neighbors_visited(g2, x) by {
                            if visited_at(before, x) {
                                lemma_neighbors_visited_grows(before, g2, x);
                            } else if visited_at(g1, x) {
                                if x != next {
                                    assert(g1.cell(x) == before.cell(x));
                                }
                            }
                        }
                        assert forall|j: int| 0 <= j < k + 1 implies match g2.neighbor(coords, #[trigger] dirs@[j]) {
                            Some(n) => visited_at(g2, n),
                            None => true,
                        } by {
                            lemma_neighbor_in_bounds(before, coords, dirs@[j]);
                            if let Some(n) = before.neighbor(coords, dirs@[j]) {
                                if j < k {
                                    lemma_visited_grows(before, g2, n);
                                } else {
                                    lemma_visited_grows(g1, g2, n);
                                }
                            }
                        }
                    }
                }
            } else {
                proof {
                    assert(visited_at(grid@, next));
                }
            }
        }
        k = k + 1;
    }
    proof {
        assert(neighbors_visited(grid@, coords)) by {
            assert forall|d: Direction| match #[trigger] grid@.neighbor(coords, d) {
                Some(n) => visited_at(grid@, n),
                None => true,
            } by {
                assert(dirs@.contains(d));
                let j = choose|j: int| 0 <= j < 4 && dirs@[j] == d;
                assert(match grid@.neighbor(coords, dirs@[j]) {
                    Some(n) => visited_at(grid@, n),
                    None => true,
                });
            }
        }
        assert forall|p: Seq<Coords>| #[trigger] unvisited_path(g0, coords, p) implies forall|i: int|
            1 <= i < p.len() ==> visited_at(grid@, #[trigger] p[i]) by {
            assert(neighbors_visited(grid@, coords));
            assert(settled_since(g0, grid@, coords));
            assert forall|i: int| 1 <= i < p.len() implies visited_at(grid@, #[trigger] p[i]) by {
                lemma_unvisited_path_visited(g0, grid@, coords, p, i);
            }
        }
    }
}

/// Recursive backtracking from `start` over a blank grid reaches every cell, and
/// on a grid of two or more cells leaves a spanning tree: `w * h - 1` passages.
pub(crate) fn recursive_backtracking(grid: &mut Grid, start: Coords, rng: &mut StdRng)
    requires
        old(grid).wf(),
        old(grid)@.in_bounds(start),
    ensures
        final(grid).wf(),
        grows_into(old(grid)@, final(grid)@),
        is_blank(old(grid)@) ==> fully_connected(final(grid)@),
        is_blank(old(grid)@) && old(grid)@.width * old(grid)@.height >= 2 ==> open_sides(final(grid)@.cells) == 2 * (
        old(grid)@.width * old(grid)@.height - 1),
{
    let ghost g0 = grid@;
    proof {
        lemma_reachable_refl(g0, start);
        if is_blank(g0) {
            assert forall|c: Coords| g0.in_bounds(c) && #[trigger] visited_at(g0, c) implies reachable(g0, start, c) by {
                lemma_index_in_range(g0.width, g0.height, c);
            }
        }
    }
    carve_passages_from(start, grid, rng, Ghost(start), Ghost(is_blank(g0)));
    proof {
        let g = grid@;
        if is_blank(g0) {
            let v = Set::new(|c: Coords| g.in_bounds(c) && (visited_at(g, c) || c == start));
            assert forall|c: Coords, d: Direction| #![trigger v.contains(c), g.neighbor(c, d)]
                v.contains(c) && g.in_bounds(c) implies match g.neighbor(c, d) {
                    Some(n) => v.contains(n),
                    None => true,
                } by {
                lemma_index_in_range(g0.width, g0.height, c);
                lemma_neighbor_in_bounds(g, c, d);
                assert(!visited_at(g0, c));
                assert(neighbors_visited(g, c));
            }
            lemma_grid_connected(g, v, start);
            let origin: Coords = (0, 0);
            assert(v.contains(origin));
            assert(reachable(g, start, origin)) by {
                if origin != start {
                    assert(visited_at(g, origin));
                }
                lemma_reachable_refl(g, start);
            }
            lemma_reachable_symmetric(g, start, origin);
            assert forall|c: Coords| g.in_bounds(c) implies #[trigger] reachable(g, (0, 0), c) by {
                assert(v.contains(c));
                lemma_reachable_refl(g, start);
                lemma_reachable_trans(g, origin, start, c);
            }
            assert(g.width * g.height > 0) by (nonlinear_arith)
                requires
                    start.0 < g.width,
                    start.1 < g.height,
            ;
            let n = g0.cells.len();
            if n >= 2 {
                assert(visited_at(g, start)) by {
                    if !visited_at(g, start) {
                        assert(g == g0);
                        let far: Coords = ((g.width - 1) as usize, (g.height - 1) as usize);
                        assert(g.width >= 2 || g.height >= 2) by (nonlinear_arith)
                            requires
                                n == g.width * g.height,
                                n >= 2,
                                g.width >= 1,
                                g.height >= 1,
                        ;
                        assert(v.contains(origin) && v.contains(far));
                        lemma_index_in_range(g0.width, g0.height, origin);
                        lemma_index_in_range(g0.width, g0.height, far);
                        assert(!visited_at(g, origin) && !visited_at(g, far));
                    }
                }
                lemma_index_in_range(g0.width, g0.height, start);
                assert(!visited_at(g0, start));
                assert(unvisited(g) =~= Set::<int>::empty()) by {
                    assert forall|i: int| !unvisited(g).contains(i) by {
                        if 0 <= i < g.cells.len() && g.cells[i].bits == 0 {
                            crate::maze::lemma_entries_row_major(g, i);
                            let c = crate::maze::entries(g)[i].0;
                            assert(v.contains(c));
                        }
                    }
                }
                assert(unvisited(g0) =~= set_int_range(0, n as int)) by {
                    assert forall|i: int| unvisited(g0).contains(i) == set_int_range(0, n as int).contains(i) by {}
                }
                lemma_int_range(0, n as int);
                crate::grid::lemma_open_sides_blank(g0.cells);
            }
        }
    }
}

} // verus!

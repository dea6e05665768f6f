//! The "Hunt and Kill" algorithm.

use vstd::prelude::*;
use vstd::set_lib::{lemma_int_range, lemma_len_subset, set_int_range};
use rand::rngs::StdRng;
use crate::cell::Direction;
use crate::grid::{open_sides, Coords, Grid, GridView, lemma_index_in_range, lemma_neighbor_in_bounds};
use crate::rng::random_directions;
use crate::validate::{fully_connected, lemma_reachable_refl, lemma_reachable_symmetric, lemma_reachable_trans, lemma_step_reachable, reachable};
use super::{lemma_tree_carve, lemma_tree_done, tree_count, grows_into, is_blank, lemma_carve_grows, lemma_grid_connected, lemma_grows_into_trans, lemma_neighbors_visited_grows, lemma_reachable_grows, lemma_visited_grows, lemma_visited_reachable_grows, neighbors_visited, reached, unvisited, visited_at, visited_reachable};

verus! {

/// No neighbor of `c` has been visited.
pub open spec fn isolated(g: GridView, c: Coords) -> bool {
    forall|d: Direction| match #[trigger] g.neighbor(c, d) {
        Some(n) => !visited_at(g, n),
        None => true,
    }
}

/// Every cell has been visited or has no visited neighbor.
pub open spec fn hunted_out(g: GridView) -> bool {
    forall|x: Coords| g.in_bounds(x) ==> #[trigger] visited_at(g, x) || isolated(g, x)
}

/// Returns a direction from `c` toward an unvisited neighbor, or `None` when
/// every neighbor has been visited.
pub(crate) fn unvisited_neighbor(grid: &Grid, c: Coords, rng: &mut StdRng) -> (r: Option<Direction>)
    requires
        grid.wf(),
        grid@.in_bounds(c),
    ensures
        r matches Some(d) ==> grid@.neighbor(c, d) matches Some(n) && !visited_at(grid@, n),
        r is None ==> neighbors_visited(grid@, c),
{
    let ghost g = grid@;
    let dirs = random_directions(rng);
    let mut k: usize = 0;
    while k < 4
        invariant
            grid.wf(),
            grid@ == g,
            g.in_bounds(c),
            k <= 4,
            forall|d: Direction| dirs@.contains(d),
            forall|j: int| 0 <= j < k ==> match g.neighbor(c, #[trigger] dirs@[j]) {
                Some(n) => visited_at(g, n),
                None => true,
            },
        decreases 4 - k,
    {
        let d = dirs[k];
        if let Ok(n) = grid.get_next_cell_coords(c, d) {
            proof {
                lemma_neighbor_in_bounds(g, c, d);
            }
            if !grid.is_cell_visited(n) {
                return Some(d);
            }
        }
        k = k + 1;
    }
    proof {
        assert forall|d: Direction| match #[trigger] g.neighbor(c, d) {
            Some(n) => visited_at(g, n),
            None => true,
        } by {
            assert(dirs@.contains(d));
            let j = choose|j: int| 0 <= j < 4 && dirs@[j] == d;
            assert(match g.neighbor(c, dirs@[j]) {
                Some(n) => visited_at(g, n),
                None => true,
            });
        }
    }
    None
}

/// Scans the grid row by row for an unvisited cell with a visited neighbor, and
/// returns it with the direction toward such a neighbor.
pub(crate) fn hunt(grid: &Grid, rng: &mut StdRng) -> (r: Option<(Coords, Direction)>)
    requires
        grid.wf(),
    ensures
        r matches Some(found) ==> grid@.in_bounds(found.0) && !visited_at(grid@, found.0) && (grid@.neighbor(
            found.0,
            found.1,
        ) matches Some(v) && visited_at(grid@, v)),
        r is None ==> hunted_out(grid@),
{
    let ghost g = grid@;
    let w = grid.width();
    let h = grid.height();
    let mut y: usize = 0;
    while y < h
        invariant
            grid.wf(),
            grid@ == g,
            w == g.width,
            h == g.height,
            y <= h,
            forall|x: Coords| g.in_bounds(x) && x.1 < y ==> #[trigger] visited_at(g, x) || isolated(g, x),
        decreases h - y,
    {
        let mut x: usize = 0;
        while x < w
            invariant
                grid.wf(),
                grid@ == g,
                w == g.width,
                h == g.height,
                y < h,
                x <= w,
                forall|c: Coords| g.in_bounds(c) && (c.1 < y || (c.1 == y && c.0 < x)) ==> #[trigger] visited_at(g, c)
                    || isolated(g, c),
            decreases w - x,
        {
            if !grid.is_cell_visited((x, y)) {
                let dirs = random_directions(rng);
                let mut k: usize = 0;
                while k < 4
                    invariant
                        grid.wf(),
                        grid@ == g,
                        g.in_bounds((x, y)),
                        !visited_at(g, (x, y)),
                        k <= 4,
                        forall|j: int| 0 <= j < k ==> match g.neighbor((x, y), #[trigger] dirs@[j]) {
                            Some(n) => !visited_at(g, n),
                            None => true,
                        },
                    decreases 4 - k,
                {
                    let d = dirs[k];
                    if let Ok(v) = grid.get_next_cell_coords((x, y), d) {
                        proof {
                            lemma_neighbor_in_bounds(g, (x, y), d);
                        }
                        if grid.is_cell_visited(v) {
                            return Some(((x, y), d));
                        }
                    }
                    k = k + 1;
                }
                proof {
                    assert(isolated(g, (x, y))) by {
                        assert forall|d: Direction| match #[trigger] g.neighbor((x, y), d) {
                            Some(n) => !visited_at(g, n),
                            None => true,
                        } by {
                            assert(dirs@.contains(d));
                            let j = choose|j: int| 0 <= j < 4 && dirs@[j] == d;
                            assert(match g.neighbor((x, y), dirs@[j]) {
                                Some(n) => !visited_at(g, n),
                                None => true,
                            });
                        }
                    }
                }
            }
            x = x + 1;
        }
        y = y + 1;
    }
    None
}

/// The "Hunt and Kill" algorithm: walks at random into unvisited neighbors,
/// carving as it goes; when stuck, hunts row by row for an unvisited cell next
/// to a visited one, joins the two, and walks on from there. It ends when the
/// hunt finds nothing.
pub(crate) fn hunt_and_kill(grid: &mut Grid, start: Coords, rng: &mut StdRng)
    requires
        old(grid).wf(),
        old(grid)@.in_bounds(start),
    ensures
        final(grid).wf(),
        grows_into(old(grid)@, final(grid)@),
        is_blank(old(grid)@) ==> fully_connected(final(grid)@),
        is_blank(old(grid)@) && old(grid)@.width * old(grid)@.height >= 2 ==> open_sides(final(grid)@.cells) == 2 * (
        old(grid)@.width * old(grid)@.height - 1),
{
    let ghost g0 = grid@;
    let ghost track = is_blank(g0);
    let mut current: Option<Coords> = Some(start);
    proof {
        lemma_int_range(0, g0.cells.len() as int);
        lemma_len_subset(unvisited(g0), set_int_range(0, g0.cells.len() as int));
        assert(tree_count(g0, g0, start));
        lemma_reachable_refl(g0, start);
        if track {
            assert forall|c: Coords| g0.in_bounds(c) && #[trigger] visited_at(g0, c) implies reachable(g0, start, c) by {
                lemma_index_in_range(g0.width, g0.height, c);
            }
        }
    }
    while current.is_some()
        invariant
            grid.wf(),
            g0.wf(),
            g0.in_bounds(start),
            grows_into(g0, grid@),
            unvisited(grid@).finite(),
            current matches Some(c) ==> grid@.in_bounds(c),
            current is None ==> hunted_out(grid@),
            track ==> visited_reachable(grid@, start),
            track ==> reachable(grid@, start, start),
            track ==> (current matches Some(c) ==> reached(grid@, start, c)),
            track ==> tree_count(g0, grid@, start),
            track == is_blank(g0),
            track ==> visited_at(grid@, start) || grid@ == g0,
            track ==> visited_at(grid@, start) || neighbors_visited(grid@, start) || (current == Some(start)
                && is_blank(grid@)),
        decreases unvisited(grid@).len() + (if current is Some { 1int } else { 0 }),
    {
        let ghost before = grid@;
        let c = current.unwrap();
        match unvisited_neighbor(grid, c, rng) {
            Some(d) => {
                proof {
                    lemma_carve_grows(before, c, d);
                    lemma_neighbor_in_bounds(before, c, d);
                    lemma_grows_into_trans(g0, before, before.carve(c, d));
                }
                let next = grid.carve_passage(c, d);
                if let Ok(n) = next {
                    current = Some(n);
                    proof {
                        if track {
                            if !visited_at(before, start) {
                                lemma_index_in_range(g0.width, g0.height, c);
                                assert(before == g0);
                                assert(!visited_at(g0, c));
                            }
                            lemma_tree_carve(g0, before, c, d, n, start);
                        }
                        let g1 = grid@;
                        let i = before.index_of(n);
                        lemma_index_in_range(before.width, before.height, n);
                        assert(unvisited(before).contains(i));
                        assert(unvisited(g1).subset_of(unvisited(before).remove(i)));
                        lemma_len_subset(unvisited(g1), unvisited(before).remove(i));
                        if track {
                            lemma_reachable_grows(before, g1, start, c);
                            lemma_reachable_grows(before, g1, start, start);
                            lemma_step_reachable(g1, start, c, d, n);
                            assert forall|x: Coords| g1.in_bounds(x) && #[trigger] visited_at(g1, x) && !visited_at(before, x)
                                implies reachable(g1, start, x) by {
                                if x != c && x != n {
                                    assert(g1.cell(x) == before.cell(x));
                                }
                            }
                            lemma_visited_reachable_grows(before, g1, start);
                            if visited_at(before, start) {
                                lemma_visited_grows(before, g1, start);
                            } else if neighbors_visited(before, start) {
                                lemma_neighbors_visited_grows(before, g1, start);
                            }
                        }
                    }
                }
            },
            None => {
                proof {
                    if track && !visited_at(before, start) && !neighbors_visited(before, start) {
                        assert(c == start);
                    }
                }
                match hunt(grid, rng) {
                    Some(found) => {
                        let (x, d) = found;
                        proof {
                            lemma_carve_grows(before, x, d);
                            lemma_neighbor_in_bounds(before, x, d);
                            lemma_grows_into_trans(g0, before, before.carve(x, d));
                        }
                        let _ = grid.carve_passage(x, d);
                        current = Some(x);
                        proof {
                            if track {
                                if !visited_at(before, start) {
                                    let vv = before.neighbor(x, d).unwrap();
                                    lemma_index_in_range(g0.width, g0.height, vv);
                                    assert(before == g0);
                                    assert(visited_at(before, vv));
                                    assert(!visited_at(g0, vv));
                                }
                                lemma_tree_carve(g0, before, x, d, before.neighbor(x, d).unwrap(), start);
                            }
                            let g1 = grid@;
                            let v = before.neighbor(x, d).unwrap();
                            let i = before.index_of(x);
                            lemma_index_in_range(before.width, before.height, x);
                            assert(unvisited(before).contains(i));
                            assert(unvisited(g1).subset_of(unvisited(before).remove(i)));
                            lemma_len_subset(unvisited(g1), unvisited(before).remove(i));
                            if track {
                                let od = crate::cell::opposite_of(d);
                                assert(g1.carved(x, d));
                                assert(g1.neighbor(v, od) == Some(x));
                                assert(g1.carved(v, od));
                                assert(reachable(before, start, v));
                                lemma_reachable_grows(before, g1, start, v);
                                lemma_reachable_grows(before, g1, start, start);
                                lemma_step_reachable(g1, start, v, od, x);
                                assert forall|y: Coords| g1.in_bounds(y) && #[trigger] visited_at(g1, y) && !visited_at(before, y)
                                    implies reachable(g1, start, y) by {
                                    if y != x && y != v {
                                        assert(g1.cell(y) == before.cell(y));
                                    }
                                }
                                lemma_visited_reachable_grows(before, g1, start);
                                if visited_at(before, start) {
                                    lemma_visited_grows(before, g1, start);
                                } else {
                                    lemma_neighbors_visited_grows(before, g1, start);
                                }
                            }
                        }
                    },
                    None => {
                        current = None;
                    },
                }
            },
        }
    }
    proof {
        let g = grid@;
        if track {
            let v = Set::new(|c: Coords| g.in_bounds(c) && reached(g, start, c));
            assert forall|c: Coords, d: Direction| #![trigger v.contains(c), g.neighbor(c, d)]
                v.contains(c) && g.in_bounds(c) implies match g.neighbor(c, d) {
                    Some(n) => v.contains(n),
                    None => true,
                } by {
                lemma_neighbor_in_bounds(g, c, d);
                if let Some(n) = g.neighbor(c, d) {
                    if !visited_at(g, n) {
                        assert(isolated(g, n));
                        let od = crate::cell::opposite_of(d);
                        assert(g.neighbor(n, od) == Some(c));
                        assert(!visited_at(g, c));
                        assert(c == start);
                        assert(neighbors_visited(g, start));
                    }
                }
            }
            lemma_grid_connected(g, v, start);
            let origin: Coords = (0, 0);
            assert(v.contains(origin));
            assert(reachable(g, start, origin));
            lemma_reachable_symmetric(g, start, origin);
            assert forall|c: Coords| g.in_bounds(c) implies #[trigger] reachable(g, (0, 0), c) by {
                assert(v.contains(c));
                lemma_reachable_trans(g, origin, start, c);
            }
            assert(g.width * g.height > 0) by (nonlinear_arith)
                requires
                    start.0 < g.width,
                    start.1 < g.height,
            ;
            if g.width * g.height >= 2 {
                assert(visited_at(g, start)) by {
                    if !visited_at(g, start) {
                        let far: Coords = ((g.width - 1) as usize, (g.height - 1) as usize);
                        assert(g.width >= 2 || g.height >= 2) by (nonlinear_arith)
                            requires
                                g.width * g.height >= 2,
                                g.width >= 1,
                                g.height >= 1,
                        ;
                        assert(v.contains(origin) && v.contains(far));
                        lemma_index_in_range(g0.width, g0.height, origin);
                        lemma_index_in_range(g0.width, g0.height, far);
                    }
                }
                assert forall|c: Coords| g.in_bounds(c) implies #[trigger] visited_at(g, c) by {
                    assert(v.contains(c));
                }
                lemma_tree_done(g0, g, start);
            }
        }
    }
}

} // verus!

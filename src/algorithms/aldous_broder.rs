//! The "Aldous-Broder" algorithm.

use vstd::prelude::*;
use vstd::set_lib::{lemma_int_range, lemma_len_subset, set_int_range};
use rand::rngs::StdRng;
use crate::cell::Direction;
use crate::grid::{open_sides, Coords, Grid, GridView, lemma_index_in_range, lemma_neighbor_in_bounds};
use crate::rng::random_directions;
use crate::validate::{fully_connected, lemma_reachable_refl, lemma_reachable_symmetric, lemma_reachable_trans, lemma_step_reachable, reachable};
use super::{lemma_tree_carve, lemma_tree_done, tree_count, grows_into, is_blank, lemma_carve_grows, lemma_reachable_grows, lemma_visited_reachable_grows, unvisited, visited_at, visited_reachable};

verus! {

/// The walk stands on `current`, which the walk from `start` has reached, and
/// every visited cell can be reached from `start`.
pub open spec fn walk_state(g: GridView, start: Coords, current: Coords) -> bool {
    &&& g.in_bounds(current)
    &&& reachable(g, start, current)
    &&& visited_reachable(g, start)
}

/// What one step of the walk does: it moves to a neighbor of `current`, and
/// carves the passage there exactly when that neighbor was unvisited.
pub open spec fn walk_step(g: GridView, current: Coords, g2: GridView, next: Coords) -> bool {
    exists|d: Direction| #[trigger] g.neighbor(current, d) == Some(next) && g2 == (if visited_at(g, next) {
        g
    } else {
        g.carve(current, d)
    })
}

/// Every cell of a grid with more than one cell has a neighbor.
proof fn lemma_has_neighbor(g: GridView, c: Coords)
    requires
        g.in_bounds(c),
        g.width * g.height >= 2,
    ensures
        exists|d: Direction| #[trigger] g.neighbor(c, d) is Some,
{
    if g.width >= 2 {
        if c.0 > 0 {
            assert(g.neighbor(c, Direction::West) is Some);
        } else {
            assert(g.neighbor(c, Direction::East) is Some);
        }
    } else {
        assert(g.height >= 2) by (nonlinear_arith)
            requires
                g.width * g.height >= 2,
                g.width < 2,
        ;
        if c.1 > 0 {
            assert(g.neighbor(c, Direction::North) is Some);
        } else {
            assert(g.neighbor(c, Direction::South) is Some);
        }
    }
}

/// One step of the "Aldous-Broder" random walk: moves from `current` to a
/// neighbor picked at random, carving the passage when that neighbor has not
/// been visited yet, and returns the neighbor. The walk ends once every cell has
/// been visited, which happens with probability one but after no bound that
/// can be stated, so the caller runs it.
pub fn aldous_broder_step(grid: &mut Grid, current: Coords, rng: &mut StdRng) -> (next: Coords)
    requires
        old(grid).wf(),
        old(grid)@.in_bounds(current),
        old(grid)@.width * old(grid)@.height >= 2,
    ensures
        final(grid).wf(),
        grows_into(old(grid)@, final(grid)@),
        final(grid)@.in_bounds(next),
        walk_step(old(grid)@, current, final(grid)@, next),
{
    let ghost g0 = grid@;
    proof {
        lemma_has_neighbor(g0, current);
    }
    let dirs = random_directions(rng);
    let mut k: usize = 0;
    while k < 4
        invariant
            grid@ == g0,
            g0 == old(grid)@,
            grid.wf(),
            g0.in_bounds(current),
            k <= 4,
            forall|d: Direction| dirs@.contains(d),
            forall|j: int| 0 <= j < k ==> g0.neighbor(current, #[trigger] dirs@[j]) is None,
        decreases 4 - k,
    {
        let d = dirs[k];
        if let Ok(n) = grid.get_next_cell_coords(current, d) {
            proof {
                lemma_neighbor_in_bounds(g0, current, d);
                lemma_carve_grows(g0, current, d);
            }
            if !grid.is_cell_visited(n) {
                let _ = grid.carve_passage(current, d);
                proof {
                    assert(grid@ == g0.carve(current, d));
                    assert(g0.neighbor(current, d) == Some(n) && grid@ == (if visited_at(g0, n) {
                        g0
                    } else {
                        g0.carve(current, d)
                    }));
                }
            } else {
                proof {
                    assert(unvisited(g0) =~= unvisited(grid@));
                    assert(grows_into(g0, grid@));
                    assert(g0.neighbor(current, d) == Some(n) && grid@ == (if visited_at(g0, n) {
                        g0
                    } else {
                        g0.carve(current, d)
                    }));
                }
            }
            return n;
        }
        k = k + 1;
    }
    proof {
        let d = choose|d: Direction| #[trigger] g0.neighbor(current, d) is Some;
        assert(dirs@.contains(d));
        let j = choose|j: int| 0 <= j < 4 && dirs@[j] == d;
        assert(g0.neighbor(current, dirs@[j]) is None);
    }
    current
}

/// Returns whether every cell has been visited, which ends the walk.
pub fn all_visited(grid: &Grid) -> (r: bool)
    requires
        grid.wf(),
    ensures
        r == forall|c: Coords| grid@.in_bounds(c) ==> #[trigger] visited_at(grid@, c),
{
    let w = grid.width();
    let h = grid.height();
    let mut y: usize = 0;
    while y < h
        invariant
            grid.wf(),
            w == grid@.width,
            h == grid@.height,
            y <= h,
            forall|c: Coords| grid@.in_bounds(c) && c.1 < y ==> #[trigger] visited_at(grid@, c),
        decreases h - y,
    {
        let mut x: usize = 0;
        while x < w
            invariant
                grid.wf(),
                w == grid@.width,
                h == grid@.height,
                y < h,
                x <= w,
                forall|c: Coords| grid@.in_bounds(c) && (c.1 < y || (c.1 == y && c.0 < x)) ==> #[trigger] visited_at(grid@, c),
            decreases w - x,
        {
            if !grid.is_cell_visited((x, y)) {
                proof {
                    assert(grid@.in_bounds((x, y)) && !visited_at(grid@, (x, y)));
                }
                return false;
            }
            x = x + 1;
        }
        y = y + 1;
    }
    true
}

/// On a blank grid the walk starts in the state it keeps.
pub proof fn lemma_walk_starts(g: GridView, start: Coords)
    requires
        g.wf(),
        is_blank(g),
        g.in_bounds(start),
    ensures
        walk_state(g, start, start),
{
    lemma_reachable_refl(g, start);
    assert forall|c: Coords| g.in_bounds(c) && #[trigger] visited_at(g, c) implies reachable(g, start, c) by {
        lemma_index_in_range(g.width, g.height, c);
    }
}

/// Each step of the walk keeps its state.
pub proof fn lemma_walk_step_keeps(g: GridView, start: Coords, current: Coords, g2: GridView, next: Coords)
    requires
        g.wf(),
        g.symmetric(),
        walk_state(g, start, current),
        walk_step(g, current, g2, next),
    ensures
        walk_state(g2, start, next),
{
    let d = choose|d: Direction| #[trigger] g.neighbor(current, d) == Some(next) && g2 == (if visited_at(g, next) {
        g
    } else {
        g.carve(current, d)
    });
    lemma_neighbor_in_bounds(g, current, d);
    if visited_at(g, next) {
        assert(reachable(g, start, next));
    } else {
        lemma_carve_grows(g, current, d);
        lemma_reachable_grows(g, g2, start, current);
        lemma_step_reachable(g2, start, current, d, next);
        assert forall|c: Coords| g2.in_bounds(c) && #[trigger] visited_at(g2, c) && !visited_at(g, c)
            implies reachable(g2, start, c) by {
            if c != current && c != next {
                assert(g2.cell(c) == g.cell(c));
            }
        }
        lemma_visited_reachable_grows(g, g2, start);
    }
}

/// Once every cell has been visited, the walk has left a fully connected maze.
pub proof fn lemma_walk_done(g: GridView, start: Coords, current: Coords)
    requires
        g.wf(),
        g.symmetric(),
        walk_state(g, start, current),
        forall|c: Coords| g.in_bounds(c) ==> #[trigger] visited_at(g, c),
    ensures
        fully_connected(g),
{
    let origin: Coords = (0, 0);
    assert(g.width * g.height > 0) by (nonlinear_arith)
        requires
            current.0 < g.width,
            current.1 < g.height,
    ;
    assert(g.width > 0 && g.height > 0) by (nonlinear_arith)
        requires
            g.width * g.height > 0,
    ;
    assert(visited_at(g, origin));
    assert(reachable(g, start, origin));
    lemma_reachable_symmetric(g, start, origin);
    assert forall|c: Coords| g.in_bounds(c) implies #[trigger] reachable(g, (0, 0), c) by {
        assert(visited_at(g, c));
        lemma_reachable_trans(g, origin, start, c);
    }
}

/// The walk began on the blank grid `g0` at `start`: it stands on a visited
/// cell or still on `start`, `start` stays unvisited only while nothing was
/// carved, and every passage carved so far entered a new cell.
pub open spec fn walk_tree(g0: GridView, g: GridView, start: Coords, current: Coords) -> bool {
    &&& g0.wf()
    &&& is_blank(g0)
    &&& g0.in_bounds(start)
    &&& g.width == g0.width
    &&& g.height == g0.height
    &&& tree_count(g0, g, start)
    &&& visited_at(g, current) || current == start
    &&& visited_at(g, start) || (g == g0 && current == start)
}

/// On a blank grid the walk starts with nothing carved.
pub proof fn lemma_walk_tree_starts(g0: GridView, start: Coords)
    requires
        g0.wf(),
        is_blank(g0),
        g0.in_bounds(start),
    ensures
        walk_tree(g0, g0, start, start),
{
    lemma_int_range(0, g0.cells.len() as int);
    lemma_len_subset(unvisited(g0), set_int_range(0, g0.cells.len() as int));
}

/// Each step of the walk carves a passage only into a new cell.
pub proof fn lemma_walk_tree_step(g0: GridView, g: GridView, start: Coords, current: Coords, g2: GridView, next: Coords)
    requires
        g.wf(),
        g.symmetric(),
        g.in_bounds(current),
        walk_tree(g0, g, start, current),
        walk_step(g, current, g2, next),
    ensures
        walk_tree(g0, g2, start, next),
{
    let d = choose|d: Direction| #[trigger] g.neighbor(current, d) == Some(next) && g2 == (if visited_at(g, next) {
        g
    } else {
        g.carve(current, d)
    });
    lemma_neighbor_in_bounds(g, current, d);
    if visited_at(g, next) {
        if !visited_at(g, start) {
            lemma_index_in_range(g0.width, g0.height, next);
            assert(g == g0);
            assert(!visited_at(g0, next));
        }
    } else {
        lemma_carve_grows(g, current, d);
        lemma_tree_carve(g0, g, current, d, next, start);
    }
}

/// Once the walk has visited every cell, the passages it carved form a
/// spanning tree: `w * h - 1` of them.
pub proof fn lemma_walk_tree_done(g0: GridView, g: GridView, start: Coords, current: Coords)
    requires
        g.wf(),
        walk_tree(g0, g, start, current),
        forall|c: Coords| g.in_bounds(c) ==> #[trigger] visited_at(g, c),
    ensures
        open_sides(g.cells) == 2 * (g.width * g.height - 1),
{
    lemma_tree_done(g0, g, start);
}

} // verus!

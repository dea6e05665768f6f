//! Prim's algorithm.

use vstd::prelude::*;
use vstd::set_lib::{lemma_int_range, lemma_len_subset, set_int_range};
use rand::rngs::StdRng;
use crate::cell::Direction;
use crate::grid::{open_sides, Coords, Grid, GridView, lemma_index_in_range, lemma_neighbor_in_bounds};
use crate::rng::random_below;
use crate::validate::{fully_connected, lemma_reachable_refl, lemma_reachable_symmetric, lemma_reachable_trans, lemma_step_reachable, reachable};
use super::{lemma_tree_carve, lemma_tree_done, tree_count, grows_into, is_blank, lemma_carve_grows, lemma_grid_connected, lemma_grows_into_trans, lemma_reachable_grows, lemma_visited_grows, lemma_visited_reachable_grows, reached, unvisited, visited_at, visited_reachable};

verus! {

/// Every passage out of a reached cell toward an unvisited cell is on the frontier.
pub open spec fn frontier_covers(g: GridView, start: Coords, frontier: Seq<(Coords, Direction)>) -> bool {
    forall|x: Coords, d: Direction|
        #![trigger reached(g, start, x), g.neighbor(x, d)]
        g.in_bounds(x) && reached(g, start, x) ==> match g.neighbor(x, d) {
            Some(n) => visited_at(g, n) || frontier.contains((x, d)),
            None => true,
        }
}

/// The four edges out of `c`.
pub open spec fn edges_out(c: Coords) -> Seq<(Coords, Direction)> {
    seq![(c, Direction::North), (c, Direction::South), (c, Direction::West), (c, Direction::East)]
}

/// Appends the four edges out of `c` to the frontier.
pub(crate) fn push_edges(frontier: &mut Vec<(Coords, Direction)>, c: Coords)
    ensures
        final(frontier)@ == old(frontier)@ + edges_out(c),
{
    frontier.push((c, Direction::North));
    frontier.push((c, Direction::South));
    frontier.push((c, Direction::West));
    frontier.push((c, Direction::East));
    assert(frontier@ =~= old(frontier)@ + edges_out(c));
}

pub(crate) proof fn lemma_pushed_edges(old_f: Seq<(Coords, Direction)>, c: Coords, d: Direction)
    ensures
        (old_f + edges_out(c)).contains((c, d)),
        forall|e: (Coords, Direction)| #[trigger] old_f.contains(e) ==> (old_f + edges_out(c)).contains(e),
{
    let f = old_f + edges_out(c);
    let k: int = match d {
        Direction::North => 0,
        Direction::South => 1,
        Direction::West => 2,
        Direction::East => 3,
    };
    assert(f[old_f.len() + k] == (c, d));
    assert forall|e: (Coords, Direction)| old_f.contains(e) implies #[trigger] f.contains(e) by {
        let j = choose|j: int| 0 <= j < old_f.len() && old_f[j] == e;
        assert(f[j] == e);
    }
}

/// Prim's algorithm: keeps a frontier of edges out of the cells reached so
/// far; repeatedly takes one at random and carves it when it leads to an
/// unvisited cell, whose edges then join the frontier.
pub(crate) fn prim(grid: &mut Grid, start: Coords, rng: &mut StdRng)
    requires
        old(grid).wf(),
        old(grid)@.in_bounds(start),
    ensures
        final(grid).wf(),
        grows_into(old(grid)@, final(grid)@),
        is_blank(old(grid)@) ==> fully_connected(final(grid)@),
        is_blank(old(grid)@) && old(grid)@.width * old(grid)@.height >= 2 ==> open_sides(final(grid)@.cells) == 2 * (
        old(grid)@.width * old(grid)@.height - 1),
{
    let ghost g0 = grid@;
    let ghost track = is_blank(g0);
    let mut frontier: Vec<(Coords, Direction)> = Vec::new();
    push_edges(&mut frontier, start);
    proof {
        assert forall|j: int| 0 <= j < frontier@.len() implies (#[trigger] frontier@[j]).0 == start by {
            assert(frontier@ =~= Seq::<(Coords, Direction)>::empty() + edges_out(start));
        }
        lemma_int_range(0, g0.cells.len() as int);
        lemma_len_subset(unvisited(g0), set_int_range(0, g0.cells.len() as int));
        assert(tree_count(g0, g0, start));
        lemma_reachable_refl(g0, start);
        if track {
            assert forall|c: Coords| g0.in_bounds(c) && #[trigger] visited_at(g0, c) implies reachable(g0, start, c) by {
                lemma_index_in_range(g0.width, g0.height, c);
            }
            assert forall|x: Coords, d: Direction|
                #![trigger reached(g0, start, x), g0.neighbor(x, d)]
                g0.in_bounds(x) && reached(g0, start, x) implies match g0.neighbor(x, d) {
                    Some(n) => visited_at(g0, n) || frontier@.contains((x, d)),
                    None => true,
                } by {
                lemma_index_in_range(g0.width, g0.height, x);
                lemma_pushed_edges(Seq::empty(), start, d);
                assert(Seq::<(Coords, Direction)>::empty() + edges_out(start) =~= frontier@);
            }
        }
    }
    while frontier.len() > 0
        invariant
            grid.wf(),
            g0.wf(),
            g0.in_bounds(start),
            grows_into(g0, grid@),
            unvisited(grid@).finite(),
            forall|j: int| 0 <= j < frontier@.len() ==> grid@.in_bounds((#[trigger] frontier@[j]).0),
            track ==> is_blank(g0),
            track ==> visited_reachable(grid@, start),
            track ==> reachable(grid@, start, start),
            track ==> forall|j: int| 0 <= j < frontier@.len() ==> reached(grid@, start, (#[trigger] frontier@[j]).0),
            track ==> frontier_covers(grid@, start, frontier@),
            track ==> tree_count(g0, grid@, start),
            track ==> visited_at(grid@, start) || (grid@ == g0 && forall|j: int| 0 <= j < frontier@.len() ==> (#[trigger] frontier@[j]).0 == start),
        decreases unvisited(grid@).len(), frontier@.len(),
    {
        let ghost before = grid@;
        let ghost f0 = frontier@;
        let idx = random_below(rng, frontier.len());
        let (c, d) = frontier.remove(idx);
        let ghost f1 = frontier@;
        proof {
            assert(f0[idx as int] == (c, d));
            assert forall|e: (Coords, Direction)| f0.contains(e) && e != (c, d) implies #[trigger] f1.contains(e) by {
                let j = choose|j: int| 0 <= j < f0.len() && f0[j] == e;
                if j < idx {
                    assert(f1[j] == e);
                } else {
                    assert(j != idx);
                    assert(f1[j - 1] == e);
                }
            }
            assert forall|j: int| 0 <= j < f1.len() implies f1[j] == f0[if j < idx { j } else { j + 1 }] by {}
        }
        let mut carved = false;
        if let Ok(m) = grid.get_next_cell_coords(c, d) {
            proof {
                lemma_neighbor_in_bounds(before, c, d);
            }
            if !grid.is_cell_visited(m) {
                proof {
                    lemma_carve_grows(before, c, d);
                    lemma_grows_into_trans(g0, before, before.carve(c, d));
                }
                let _ = grid.carve_passage(c, d);
                push_edges(&mut frontier, m);
                carved = true;
                proof {
                    if track {
                        assert(f0[idx as int] == (c, d));
                        assert(reached(before, start, c));
                        lemma_tree_carve(g0, before, c, d, m, start);
                    }
                    let g1 = grid@;
                    let i = before.index_of(m);
                    lemma_index_in_range(before.width, before.height, m);
                    assert(unvisited(before).contains(i));
                    assert(unvisited(g1).subset_of(unvisited(before).remove(i)));
                    lemma_len_subset(unvisited(g1), unvisited(before).remove(i));
                    assert forall|j: int| 0 <= j < frontier@.len() implies g1.in_bounds((#[trigger] frontier@[j]).0) by {
                        if j < f1.len() {
                            assert(frontier@[j] == f1[j]);
                            assert(f1[j] == f0[if j < idx { j } else { j + 1 }]);
                        }
                    }
                    if track {
                        assert(reached(before, start, c)) by {
                            assert(f0[idx as int] == (c, d));
                        }
                        lemma_reachable_grows(before, g1, start, c);
                        lemma_reachable_grows(before, g1, start, start);
                        lemma_step_reachable(g1, start, c, d, m);
                        assert forall|x: Coords| g1.in_bounds(x) && #[trigger] visited_at(g1, x) && !visited_at(before, x)
                            implies reachable(g1, start, x) by {
                            if x != c && x != m {
                                assert(g1.cell(x) == before.cell(x));
                            }
                        }
                        lemma_visited_reachable_grows(before, g1, start);
                        assert forall|j: int| 0 <= j < frontier@.len() implies reached(g1, start, (#[trigger] frontier@[j]).0) by {
                            if j < f1.len() {
                                assert(frontier@[j] == f1[j]);
                                let e = f0[if j < idx { j } else { j + 1 }];
                                assert(f1[j] == e);
                                if e.0 != start {
                                    lemma_visited_grows(before, g1, e.0);
                                }
                            }
                        }
                        assert forall|x: Coords, e: Direction|
                            #![trigger reached(g1, start, x), g1.neighbor(x, e)]
                            g1.in_bounds(x) && reached(g1, start, x) implies match g1.neighbor(x, e) {
                                Some(n) => visited_at(g1, n) || frontier@.contains((x, e)),
                                None => true,
                            } by {
                            lemma_pushed_edges(f1, m, e);
                            if x != m {
                                if x != c && x != start {
                                    assert(g1.cell(x) == before.cell(x));
                                }
                                assert(reached(before, start, x));
                                if let Some(n) = before.neighbor(x, e) {
                                    lemma_neighbor_in_bounds(before, x, e);
                                    if visited_at(before, n) {
                                        lemma_visited_grows(before, g1, n);
                                    } else if (x, e) == (c, d) {
                                        assert(n == m);
                                    } else {
                                        assert(f0.contains((x, e)));
                                        assert(f1.contains((x, e)));
                                    }
                                }
                            }
                        }
                    }
                }
            }
        }
        if !carved {
            proof {
                if track && !visited_at(before, start) {
                    assert forall|j: int| 0 <= j < frontier@.len() implies (#[trigger] frontier@[j]).0 == start by {
                        assert(f1[j] == f0[if j < idx { j } else { j + 1 }]);
                    }
                }
                assert forall|j: int| 0 <= j < frontier@.len() implies before.in_bounds((#[trigger] frontier@[j]).0) by {
                    assert(f1[j] == f0[if j < idx { j } else { j + 1 }]);
                }
                if track {
                    assert forall|j: int| 0 <= j < frontier@.len() implies reached(before, start, (#[trigger] frontier@[j]).0) by {
                        assert(f1[j] == f0[if j < idx { j } else { j + 1 }]);
                    }
                    assert forall|x: Coords, e: Direction|
                        #![trigger reached(before, start, x), before.neighbor(x, e)]
                        before.in_bounds(x) && reached(before, start, x) implies match before.neighbor(x, e) {
                            Some(n) => visited_at(before, n) || frontier@.contains((x, e)),
                            None => true,
                        } by {
                        if let Some(n) = before.neighbor(x, e) {
                            if !visited_at(before, n) {
                                assert(f0.contains((x, e)));
                                if (x, e) == (c, d) {
                                    assert(before.neighbor(c, d) == Some(n));
                                }
                            }
                        }
                    }
                }
            }
        }
    }
    proof {
        let g = grid@;
        if track {
            let v = Set::new(|c: Coords| g.in_bounds(c) && reached(g, start, c));
            assert forall|c: Coords, d: Direction| #![trigger v.contains(c), g.neighbor(c, d)]
                v.contains(c) && g.in_bounds(c) implies match g.neighbor(c, d) {
                    Some(n) => v.contains(n),
                    None => true,
                } by {
                lemma_neighbor_in_bounds(g, c, d);
                assert(reached(g, start, c));
            }
            lemma_grid_connected(g, v, start);
            let origin: Coords = (0, 0);
            assert(v.contains(origin));
            assert(reachable(g, start, origin));
            lemma_reachable_symmetric(g, start, origin);
            assert forall|c: Coords| g.in_bounds(c) implies #[trigger] reachable(g, (0, 0), c) by {
                assert(v.contains(c));
                lemma_reachable_trans(g, origin, start, c);
            }
            assert(g.width * g.height > 0) by (nonlinear_arith)
                requires
                    start.0 < g.width,
                    start.1 < g.height,
            ;
            if g.width * g.height >= 2 {
                assert(visited_at(g, start)) by {
                    if !visited_at(g, start) {
                        let far: Coords = ((g.width - 1) as usize, (g.height - 1) as usize);
                        assert(g.width >= 2 || g.height >= 2) by (nonlinear_arith)
                            requires
                                g.width * g.height >= 2,
                                g.width >= 1,
                                g.height >= 1,
                        ;
                        assert(v.contains(origin) && v.contains(far));
                        lemma_index_in_range(g0.width, g0.height, origin);
                        lemma_index_in_range(g0.width, g0.height, far);
                    }
                }
                assert forall|c: Coords| g.in_bounds(c) implies #[trigger] visited_at(g, c) by {
                    assert(v.contains(c));
                }
                lemma_tree_done(g0, g, start);
            }
        }
    }
}

} // verus!

//! The "Sidewinder" algorithm.

use vstd::prelude::*;
use rand::rngs::StdRng;
use crate::cell::Direction;
use crate::grid::{lemma_index_in_range, lemma_open_sides_blank, open_sides, Coords, Grid, GridView};
use crate::rng::{random_below, random_coin};
use crate::validate::{fully_connected, lemma_reachable_refl, lemma_reachable_symmetric, lemma_reachable_trans, lemma_step_reachable, reachable};
use super::{binary_tree::at_or_after, is_blank, kruskal::lemma_carve_closed, carve_if_possible, grows_into, lemma_carve_grows, lemma_grows_into_trans, lemma_reachable_grows};

verus! {

/// Along row `y`, the cells from column `a` to column `b` are joined by east
/// passages, so `(a, y)` reaches each of them.
pub(crate) proof fn lemma_east_chain(g: GridView, y: usize, a: usize, b: usize)
    requires
        g.wf(),
        a <= b < g.width,
        y < g.height,
        forall|i: usize| a <= i < b ==> #[trigger] g.carved((i, y), Direction::East),
    ensures
        reachable(g, (a, y), (b, y)),
    decreases b - a,
{
    if a == b {
        lemma_reachable_refl(g, (a, y));
    } else {
        let p = (b - 1) as usize;
        lemma_east_chain(g, y, a, p);
        assert(g.carved((p, y), Direction::East));
        assert(g.neighbor((p, y), Direction::East) == Some((b, y)));
        lemma_step_reachable(g, (a, y), (p, y), Direction::East, (b, y));
    }
}

/// No cell from `(x, y)` on has its east passage open.
pub open spec fn east_closed_from(g: GridView, x: int, y: int) -> bool {
    forall|c: Coords| g.in_bounds(c) && #[trigger] at_or_after(c, x, y) ==> !g.carved(c, Direction::East)
}

/// No cell from `(x, y)` on has its north passage open.
pub open spec fn north_closed_from(g: GridView, x: int, y: int) -> bool {
    forall|c: Coords| g.in_bounds(c) && #[trigger] at_or_after(c, x, y) ==> !g.carved(c, Direction::North)
}

/// Carving east from the current cell, or north from a cell of the open run,
/// goes through a closed wall, opens two sides and keeps the walls ahead closed.
proof fn lemma_side_carve(g: GridView, c0: Coords, d: Direction, x: usize, y: usize, rs: usize)
    requires
        g.wf(),
        g.symmetric(),
        g.in_bounds(c0),
        g.neighbor(c0, d) is Some,
        c0.1 == y,
        d == Direction::East ==> c0.0 == x,
        d == Direction::North ==> rs <= c0.0 <= x,
        d == Direction::East || d == Direction::North,
        rs <= x,
        east_closed_from(g, x as int, y as int),
        north_closed_from(g, rs as int, y as int),
    ensures
        open_sides(g.carve(c0, d).cells) == open_sides(g.cells) + 2,
        east_closed_from(g.carve(c0, d), x + 1, y as int),
        north_closed_from(g.carve(c0, d), if d == Direction::North { x + 1 } else { rs as int }, y as int),
{
    let n = g.neighbor(c0, d).unwrap();
    assert(d == Direction::East ==> at_or_after(c0, x as int, y as int));
    assert(d == Direction::North ==> at_or_after(c0, rs as int, y as int));
    lemma_carve_closed(g, c0, d, n);
    let g2 = g.carve(c0, d);
    assert forall|c: Coords| g2.in_bounds(c) && #[trigger] at_or_after(c, x + 1, y as int) implies !g2.carved(c, Direction::East) by {
        assert(at_or_after(c, x as int, y as int));
    }
    let nr = if d == Direction::North { x + 1 } else { rs as int };
    assert forall|c: Coords| g2.in_bounds(c) && #[trigger] at_or_after(c, nr, y as int) implies !g2.carved(c, Direction::North) by {
        assert(at_or_after(c, rs as int, y as int));
    }
}

/// The "Sidewinder" algorithm: row by row, each cell either extends the current
/// run eastward or closes it by carving north from one random cell of the run.
/// The top row is one run.
pub(crate) fn sidewinder(grid: &mut Grid, rng: &mut StdRng)
    requires
        old(grid).wf(),
    ensures
        final(grid).wf(),
        grows_into(old(grid)@, final(grid)@),
        final(grid)@.width * final(grid)@.height > 0 ==> fully_connected(final(grid)@),
        is_blank(old(grid)@) && old(grid)@.width * old(grid)@.height > 0 ==> open_sides(final(grid)@.cells) == 2 * (
        old(grid)@.width * old(grid)@.height - 1),
{
    let w = grid.width();
    let h = grid.height();
    let ghost g0 = grid@;
    let ghost track = is_blank(g0);
    let ghost mut carves: int = 0;
    proof {
        if track {
            lemma_open_sides_blank(g0.cells);
            assert forall|c: Coords| g0.in_bounds(c) && #[trigger] at_or_after(c, 0, 0) implies !g0.carved(c, Direction::East)
                && !g0.carved(c, Direction::North) by {
                lemma_index_in_range(g0.width, g0.height, c);
                assert(0u8 & 1 == 0 && 0u8 & 4 == 0) by (bit_vector);
            }
        }
    }
    let mut y: usize = 0;
    while y < h
        invariant
            grid.wf(),
            g0.wf(),
            grows_into(g0, grid@),
            w == grid@.width,
            h == grid@.height,
            y <= h,
            forall|c: Coords| grid@.in_bounds(c) && c.1 < y ==> #[trigger] reachable(grid@, (0, 0), c),
            track == is_blank(g0),
            track ==> east_closed_from(grid@, 0, y as int) && north_closed_from(grid@, 0, y as int),
            track ==> open_sides(grid@.cells) == 2 * carves,
            w > 0 ==> carves == (if y == 0 { 0 } else { y * w - 1 }),
        decreases h - y,
    {
        let mut run_start: usize = 0;
        let mut x: usize = 0;
        while x < w
            invariant
                grid.wf(),
                g0.wf(),
                grows_into(g0, grid@),
                w == grid@.width,
                h == grid@.height,
                y < h,
                x <= w,
                run_start <= x,
                y == 0 ==> run_start == 0,
                y > 0 && x == w && w > 0 ==> run_start == w,
                forall|c: Coords| grid@.in_bounds(c) && c.1 < y ==> #[trigger] reachable(grid@, (0, 0), c),
                y > 0 ==> forall|i: usize| i < run_start ==> #[trigger] reachable(grid@, (0, 0), (i, y)),
                forall|i: usize| run_start <= i < x && i + 1 < w ==> #[trigger] grid@.carved((i, y), Direction::East),
                track == is_blank(g0),
                track ==> east_closed_from(grid@, x as int, y as int) && north_closed_from(grid@, run_start as int, y as int),
                track ==> open_sides(grid@.cells) == 2 * carves,
                w > 0 ==> carves == (if y == 0 { if x == w { w - 1 } else { x as int } } else { y * w - 1 + x }),
            decreases w - x,
        {
            let at_east_edge = x + 1 == w;
            let close_run = at_east_edge || (y > 0 && random_coin(rng));
            let ghost before = grid@;
            if !close_run {
                carve_if_possible(grid, (x, y), Direction::East);
                proof {
                    if track {
                        lemma_side_carve(before, (x, y), Direction::East, x, y, run_start);
                    }
                    carves = carves + 1;
                    lemma_grows_into_trans(g0, before, grid@);
                    lemma_carve_grows(before, (x, y), Direction::East);
                    let g = grid@;
                    assert forall|c: Coords| g.in_bounds(c) && c.1 < y implies #[trigger] reachable(g, (0, 0), c) by {
                        lemma_reachable_grows(before, g, (0, 0), c);
                    }
                    if y > 0 {
                        assert forall|i: usize| i < run_start implies #[trigger] reachable(g, (0, 0), (i, y)) by {
                            lemma_reachable_grows(before, g, (0, 0), (i, y));
                        }
                    }
                    assert forall|i: usize| run_start <= i < x + 1 && i + 1 < w implies #[trigger] g.carved(
                        (i, y),
                        Direction::East,
                    ) by {
                        if i < x {
                            assert(before.carved((i, y), Direction::East));
                        }
                    }
                }
            } else if y > 0 {
                let k = run_start + random_below(rng, x - run_start + 1);
                carve_if_possible(grid, (k, y), Direction::North);
                proof {
                    if track {
                        lemma_side_carve(before, (k, y), Direction::North, x, y, run_start);
                    }
                    carves = carves + 1;
                    lemma_grows_into_trans(g0, before, grid@);
                    lemma_carve_grows(before, (k, y), Direction::North);
                    let g = grid@;
                    let above: Coords = (k, (y - 1) as usize);
                    assert forall|c: Coords| g.in_bounds(c) && c.1 < y implies #[trigger] reachable(g, (0, 0), c) by {
                        lemma_reachable_grows(before, g, (0, 0), c);
                    }
                    assert(g.neighbor((k, y), Direction::North) == Some(above));
                    assert(g.carved((k, y), Direction::North));
                    assert(g.carved(above, Direction::South));
                    assert(g.neighbor(above, Direction::South) == Some((k, y)));
                    assert(reachable(g, (0, 0), above));
                    lemma_step_reachable(g, (0, 0), above, Direction::South, (k, y));
                    assert forall|i: usize| run_start <= i < x implies #[trigger] g.carved((i, y), Direction::East) by {
                        assert(before.carved((i, y), Direction::East));
                    }
                    assert forall|i: usize| i < x + 1 implies #[trigger] reachable(g, (0, 0), (i, y)) by {
                        if i < run_start {
                            lemma_reachable_grows(before, g, (0, 0), (i, y));
                        } else if i <= k {
                            lemma_east_chain(g, y, i, k);
                            lemma_reachable_symmetric(g, (i, y), (k, y));
                            lemma_reachable_trans(g, (0, 0), (k, y), (i, y));
                        } else {
                            lemma_east_chain(g, y, k, i);
                            lemma_reachable_trans(g, (0, 0), (k, y), (i, y));
                        }
                    }
                }
                run_start = x + 1;
            }
            proof {
                if track && close_run && y == 0 {
                    assert forall|c: Coords| grid@.in_bounds(c) && #[trigger] at_or_after(c, x + 1, y as int) implies !grid@.carved(
                        c,
                        Direction::East,
                    ) by {
                        assert(at_or_after(c, x as int, y as int));
                    }
                }
            }
            x = x + 1;
        }
        proof {
            if track {
                assert forall|c: Coords| grid@.in_bounds(c) && #[trigger] at_or_after(c, 0, y + 1) implies !grid@.carved(
                    c,
                    Direction::East,
                ) && !grid@.carved(c, Direction::North) by {
                    assert(at_or_after(c, x as int, y as int));
                    assert(at_or_after(c, run_start as int, y as int));
                }
            }
            assert(y * w - 1 + w == (y + 1) * w - 1) by (nonlinear_arith);
            assert(1 * w == w);
        }
        proof {
            let g = grid@;
            if y == 0 {
                assert forall|i: usize| i < w implies #[trigger] reachable(g, (0, 0), (i, y)) by {
                    lemma_east_chain(g, y, 0, i);
                }
            }
            assert forall|c: Coords| g.in_bounds(c) && c.1 < y + 1 implies #[trigger] reachable(g, (0, 0), c) by {
                if c.1 == y {
                    assert(reachable(g, (0, 0), (c.0, y)));
                }
            }
        }
        y = y + 1;
    }
    proof {
        assert(h * w == w * h) by (nonlinear_arith);
        assert(w * h > 0 ==> w > 0 && h > 0) by (nonlinear_arith);
    }
}

} // verus!

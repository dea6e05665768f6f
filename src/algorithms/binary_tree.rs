//! The "Binary Tree" algorithm.

use vstd::prelude::*;
use rand::rngs::StdRng;
use crate::cell::Direction;
use crate::grid::{lemma_index_in_range, lemma_open_sides_blank, open_sides, Coords, Grid, GridView, lemma_neighbor_in_bounds};
use crate::rng::random_coin;
use crate::validate::{fully_connected, lemma_reachable_refl, lemma_reachable_symmetric, lemma_reachable_trans, lemma_step_reachable, reachable};
use super::{is_blank, kruskal::lemma_carve_closed, carve_if_possible, grows_into, lemma_carve_grows, lemma_grows_into_trans};

verus! {

/// The pair of directions that the "Binary Tree" algorithm carves toward.
#[derive(Clone, Copy, Debug, PartialEq, Eq, Structural)]
pub enum Bias {
    NorthWest,
    NorthEast,
    SouthWest,
    SouthEast,
}

impl Bias {
    /// Returns the vertical and the horizontal direction of the bias.
    pub fn directions(self) -> (r: (Direction, Direction))
        ensures
            r.0 == Direction::North || r.0 == Direction::South,
            r.1 == Direction::East || r.1 == Direction::West,
    {
        match self {
            Bias::NorthWest => (Direction::North, Direction::West),
            Bias::NorthEast => (Direction::North, Direction::East),
            Bias::SouthWest => (Direction::South, Direction::West),
            Bias::SouthEast => (Direction::South, Direction::East),
        }
    }
}

/// `c` has an open passage toward one of the bias directions `v` and `hz`, or
/// neither direction leads to a neighbor.
pub open spec fn bias_ok(g: GridView, c: Coords, v: Direction, hz: Direction) -> bool {
    ||| g.neighbor(c, v) is None && g.neighbor(c, hz) is None
    ||| g.neighbor(c, v) is Some && g.carved(c, v)
    ||| g.neighbor(c, hz) is Some && g.carved(c, hz)
}

/// The cell from which neither bias direction leads anywhere.
pub open spec fn bias_corner(g: GridView, v: Direction, hz: Direction) -> Coords {
    (
        if hz == Direction::East { (g.width - 1) as usize } else { 0usize },
        if v == Direction::North { 0usize } else { (g.height - 1) as usize },
    )
}

/// The number of bias steps from `c` to the bias corner.
pub open spec fn bias_distance(g: GridView, c: Coords, v: Direction, hz: Direction) -> nat {
    ((if v == Direction::North { c.1 as int } else { g.height - 1 - c.1 }) + (if hz == Direction::East {
        g.width - 1 - c.0
    } else {
        c.0 as int
    })) as nat
}

pub(crate) proof fn lemma_reach_bias_corner(g: GridView, c: Coords, v: Direction, hz: Direction)
    requires
        g.wf(),
        g.in_bounds(c),
        v == Direction::North || v == Direction::South,
        hz == Direction::East || hz == Direction::West,
        forall|x: Coords| g.in_bounds(x) ==> #[trigger] bias_ok(g, x, v, hz),
    ensures
        reachable(g, c, bias_corner(g, v, hz)),
    decreases bias_distance(g, c, v, hz),
{
    assert(bias_ok(g, c, v, hz));
    lemma_reachable_refl(g, c);
    if g.neighbor(c, v) is None && g.neighbor(c, hz) is None {
        assert(c == bias_corner(g, v, hz));
    } else {
        let d = if g.neighbor(c, v) is Some && g.carved(c, v) { v } else { hz };
        let n = g.neighbor(c, d).unwrap();
        lemma_neighbor_in_bounds(g, c, d);
        lemma_step_reachable(g, c, c, d, n);
        lemma_reach_bias_corner(g, n, v, hz);
        lemma_reachable_trans(g, c, n, bias_corner(g, v, hz));
    }
}

/// `c` comes at or after `(x, y)` in row-major order.
pub open spec fn at_or_after(c: Coords, x: int, y: int) -> bool {
    c.1 > y || (c.1 == y && c.0 >= x)
}

/// No cell from `(x, y)` on has its passage toward a bias direction open.
pub open spec fn bias_closed_from(g: GridView, x: int, y: int, v: Direction, hz: Direction) -> bool {
    forall|c: Coords| g.in_bounds(c) && #[trigger] at_or_after(c, x, y) ==> !g.carved(c, v) && !g.carved(c, hz)
}

/// Carving from `c0` toward a bias direction through a closed wall opens two
/// sides, and no cell after `c0` gets a bias-direction passage from it.
proof fn lemma_bias_carve(g: GridView, c0: Coords, d: Direction, v: Direction, hz: Direction)
    requires
        g.wf(),
        g.symmetric(),
        g.in_bounds(c0),
        g.neighbor(c0, d) is Some,
        d == v || d == hz,
        v == Direction::North || v == Direction::South,
        hz == Direction::East || hz == Direction::West,
        bias_closed_from(g, c0.0 as int, c0.1 as int, v, hz),
    ensures
        open_sides(g.carve(c0, d).cells) == open_sides(g.cells) + 2,
        bias_closed_from(g.carve(c0, d), c0.0 + 1, c0.1 as int, v, hz),
{
    let n = g.neighbor(c0, d).unwrap();
    assert(at_or_after(c0, c0.0 as int, c0.1 as int));
    lemma_carve_closed(g, c0, d, n);
    let g2 = g.carve(c0, d);
    assert forall|c: Coords| g2.in_bounds(c) && #[trigger] at_or_after(c, c0.0 + 1, c0.1 as int) implies !g2.carved(c, v)
        && !g2.carved(c, hz) by {
        assert(at_or_after(c, c0.0 as int, c0.1 as int));
        assert(g.in_bounds(c));
    }
}

/// The "Binary Tree" algorithm: every cell carves toward one of the two bias
/// directions, chosen at random where both lead to a neighbor.
pub(crate) fn binary_tree(grid: &mut Grid, bias: Bias, rng: &mut StdRng)
    requires
        old(grid).wf(),
    ensures
        final(grid).wf(),
        grows_into(old(grid)@, final(grid)@),
        final(grid)@.width * final(grid)@.height > 0 ==> fully_connected(final(grid)@),
        is_blank(old(grid)@) && old(grid)@.width * old(grid)@.height > 0 ==> open_sides(final(grid)@.cells) == 2 * (
        old(grid)@.width * old(grid)@.height - 1),
{
    let (vertical, horizontal) = bias.directions();
    let w = grid.width();
    let h = grid.height();
    let ghost g0 = grid@;
    let ghost track = is_blank(g0);
    let ghost corner = bias_corner(g0, vertical, horizontal);
    let ghost mut carves: int = 0;
    proof {
        if track {
            lemma_open_sides_blank(g0.cells);
            assert forall|c: Coords| g0.in_bounds(c) && #[trigger] at_or_after(c, 0, 0) implies !g0.carved(c, vertical) && !g0.carved(c, horizontal) by {
                lemma_index_in_range(g0.width, g0.height, c);
                assert(0u8 & 1 == 0 && 0u8 & 2 == 0 && 0u8 & 4 == 0 && 0u8 & 8 == 0) by (bit_vector);
            }
        }
        assert(0 * w + 0 == 0) by (nonlinear_arith);
    }
    let mut y: usize = 0;
    while y < h
        invariant
            grid.wf(),
            g0.wf(),
            grows_into(g0, grid@),
            w == grid@.width,
            h == grid@.height,
            y <= h,
            vertical == Direction::North || vertical == Direction::South,
            horizontal == Direction::East || horizontal == Direction::West,
            forall|c: Coords| grid@.in_bounds(c) && c.1 < y ==> #[trigger] bias_ok(grid@, c, vertical, horizontal),
            track == is_blank(g0),
            corner == bias_corner(g0, vertical, horizontal),
            track ==> open_sides(grid@.cells) == 2 * carves,
            track ==> bias_closed_from(grid@, 0, y as int, vertical, horizontal),
            w > 0 ==> carves == y * w - (if corner.1 < y { 1int } else { 0 }),
        decreases h - y,
    {
        let mut x: usize = 0;
        proof {
            if w == 0 {
                assert(w == 0);
            }
        }
        if w == 0 {
            y = y + 1;
            continue;
        }
        while x < w
            invariant
                grid.wf(),
                g0.wf(),
                grows_into(g0, grid@),
                w == grid@.width,
                h == grid@.height,
                y < h,
                x <= w,
                vertical == Direction::North || vertical == Direction::South,
                horizontal == Direction::East || horizontal == Direction::West,
                forall|c: Coords| grid@.in_bounds(c) && (c.1 < y || (c.1 == y && c.0 < x)) ==> #[trigger] bias_ok(
                    grid@,
                    c,
                    vertical,
                    horizontal,
                ),
                track == is_blank(g0),
                corner == bias_corner(g0, vertical, horizontal),
                track ==> open_sides(grid@.cells) == 2 * carves,
                track ==> bias_closed_from(grid@, x as int, y as int, vertical, horizontal),
                carves == y * w + x - (if corner.1 < y || (corner.1 == y && corner.0 < x) { 1int } else { 0 }),
                w > 0,
                corner.0 < w,
            decreases w - x,
        {
            let ghost before = grid@;
            let v_ok = grid.get_next_cell_coords((x, y), vertical).is_ok();
            let h_ok = grid.get_next_cell_coords((x, y), horizontal).is_ok();
            let choice = if v_ok && h_ok {
                if random_coin(rng) {
                    Some(vertical)
                } else {
                    Some(horizontal)
                }
            } else if v_ok {
                Some(vertical)
            } else if h_ok {
                Some(horizontal)
            } else {
                None
            };
            if let Some(d) = choice {
                carve_if_possible(grid, (x, y), d);
                proof {
                    lemma_grows_into_trans(g0, before, grid@);
                    lemma_carve_grows(before, (x, y), d);
                    assert((x, y) != corner);
                    if track {
                        lemma_bias_carve(before, (x, y), d, vertical, horizontal);
                    }
                    carves = carves + 1;
                }
            } else {
                proof {
                    assert((x, y) == corner);
                    if track {
                        assert forall|c: Coords| grid@.in_bounds(c) && #[trigger] at_or_after(c, x + 1, y as int) implies !grid@.carved(c, vertical)
                            && !grid@.carved(c, horizontal) by {
                            assert(at_or_after(c, x as int, y as int));
                        }
                    }
                }
            }
            proof {
                assert forall|c: Coords| grid@.in_bounds(c) && (c.1 < y || (c.1 == y && c.0 < x + 1)) implies #[trigger] bias_ok(
                    grid@,
                    c,
                    vertical,
                    horizontal,
                ) by {
                    if c != (x, y) {
                        assert(bias_ok(before, c, vertical, horizontal));
                    }
                }
            }
            x = x + 1;
        }
        proof {
            assert(y * w + w == (y + 1) * w) by (nonlinear_arith);
            if track {
                assert forall|c: Coords| grid@.in_bounds(c) && #[trigger] at_or_after(c, 0, y + 1) implies !grid@.carved(c, vertical)
                    && !grid@.carved(c, horizontal) by {
                    assert(at_or_after(c, x as int, y as int));
                }
            }
        }
        y = y + 1;
    }
    proof {
        let g = grid@;
        if g.width * g.height > 0 {
            assert(g.width > 0 && g.height > 0) by (nonlinear_arith)
                requires
                    g.width * g.height > 0,
            ;
            let corner = bias_corner(g, vertical, horizontal);
            let origin: Coords = (0, 0);
            lemma_reach_bias_corner(g, origin, vertical, horizontal);
            assert forall|c: Coords| g.in_bounds(c) implies #[trigger] reachable(g, (0, 0), c) by {
                lemma_reach_bias_corner(g, c, vertical, horizontal);
                lemma_reachable_symmetric(g, c, corner);
                lemma_reachable_trans(g, origin, corner, c);
            }
            assert(h * w == w * h) by (nonlinear_arith);
            assert(corner.1 < h);
        }
    }
}

} // verus!

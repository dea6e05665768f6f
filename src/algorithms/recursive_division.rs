//! The "Recursive Division" algorithm.

use vstd::prelude::*;
use rand::rngs::StdRng;
use crate::cell::Direction;
use crate::grid::{open_sides, Coords, Grid, GridView};
use crate::rng::{random_below, random_coin};
use crate::validate::{lemma_reachable_refl, lemma_reachable_symmetric, lemma_reachable_trans, lemma_step_reachable, reachable};
use super::{kruskal::lemma_carve_closed, carve_if_possible, grows_into, lemma_carve_grows, lemma_grows_into_trans, lemma_reachable_grows};

verus! {

/// `c` lies in the chamber of `w` by `h` cells whose top-left cell is `(x, y)`.
pub open spec fn in_chamber(c: Coords, x: usize, y: usize, w: usize, h: usize) -> bool {
    x <= c.0 < x + w && y <= c.1 < y + h
}

/// No passage joins two cells of the chamber.
pub open spec fn inner_closed(g: GridView, x: usize, y: usize, w: usize, h: usize) -> bool {
    forall|c: Coords, d: Direction| in_chamber(c, x, y, w, h) && #[trigger] g.carved(c, d) ==> match g.neighbor(c, d) {
        Some(n) => !in_chamber(n, x, y, w, h),
        None => true,
    }
}

/// Splitting the chamber into rows `y..=y+k` and the rest, joined by one gap at
/// column `gap`: cells outside the chamber keep their flags, and a chamber
/// without inner passages gains `w * h - 1` of them.
proof fn lemma_split_rows(
    before: GridView,
    g1: GridView,
    g2: GridView,
    g3: GridView,
    x: usize,
    y: usize,
    w: usize,
    h: usize,
    k: usize,
    gap: usize,
)
    requires
        before.wf(),
        before.symmetric(),
        x + w <= before.width,
        y + h <= before.height,
        k + 1 < h,
        x <= gap < x + w,
        g1 == before.carve((gap, (y + k) as usize), Direction::South),
        forall|c: Coords| g1.in_bounds(c) && !in_chamber(c, x, y, w, (k + 1) as usize) ==> #[trigger] g2.cell(c) == g1.cell(c),
        inner_closed(g1, x, y, w, (k + 1) as usize) ==> open_sides(g2.cells) == open_sides(g1.cells) + 2 * (w * (k + 1) - 1),
        forall|c: Coords| g2.in_bounds(c) && !in_chamber(c, x, (y + k + 1) as usize, w, (h - k - 1) as usize)
            ==> #[trigger] g3.cell(c) == g2.cell(c),
        inner_closed(g2, x, (y + k + 1) as usize, w, (h - k - 1) as usize) ==> open_sides(g3.cells) == open_sides(g2.cells)
            + 2 * (w * (h - k - 1) - 1),
        g1.width == before.width && g1.height == before.height,
        g2.width == before.width && g2.height == before.height,
    ensures
        forall|c: Coords| before.in_bounds(c) && !in_chamber(c, x, y, w, h) ==> #[trigger] g3.cell(c) == before.cell(c),
        inner_closed(before, x, y, w, h) ==> open_sides(g3.cells) == open_sides(before.cells) + 2 * (w * h - 1),
{
    let top: Coords = (gap, (y + k) as usize);
    let bottom: Coords = (gap, (y + k + 1) as usize);
    assert(before.neighbor(top, Direction::South) == Some(bottom));
    lemma_carve_grows(before, top, Direction::South);
    assert forall|c: Coords| before.in_bounds(c) && !in_chamber(c, x, y, w, h) implies #[trigger] g3.cell(c) == before.cell(c) by {
        assert(g1.cell(c) == before.cell(c));
        assert(g2.cell(c) == g1.cell(c));
    }
    if inner_closed(before, x, y, w, h) {
        assert(in_chamber(top, x, y, w, h) && in_chamber(bottom, x, y, w, h));
        assert(!before.carved(top, Direction::South));
        lemma_carve_closed(before, top, Direction::South, bottom);
        assert forall|c: Coords, d: Direction| in_chamber(c, x, y, w, (k + 1) as usize) && #[trigger] g1.carved(c, d)
            implies match g1.neighbor(c, d) {
                Some(n) => !in_chamber(n, x, y, w, (k + 1) as usize),
                None => true,
            } by {
            assert(in_chamber(c, x, y, w, h));
        }
        assert forall|c: Coords, d: Direction| in_chamber(c, x, (y + k + 1) as usize, w, (h - k - 1) as usize)
            && #[trigger] g2.carved(c, d) implies match g2.neighbor(c, d) {
                Some(n) => !in_chamber(n, x, (y + k + 1) as usize, w, (h - k - 1) as usize),
                None => true,
            } by {
            assert(in_chamber(c, x, y, w, h));
            assert(!in_chamber(c, x, y, w, (k + 1) as usize));
            assert(g2.cell(c) == g1.cell(c));
            assert(g1.carved(c, d));
        }
        assert(w * (k + 1) + w * (h - k - 1) == w * h) by (nonlinear_arith);
    }
}

/// Splitting the chamber into columns `x..=x+k` and the rest, joined by one gap
/// at row `gap`: cells outside the chamber keep their flags, and a chamber
/// without inner passages gains `w * h - 1` of them.
proof fn lemma_split_columns(
    before: GridView,
    g1: GridView,
    g2: GridView,
    g3: GridView,
    x: usize,
    y: usize,
    w: usize,
    h: usize,
    k: usize,
    gap: usize,
)
    requires
        before.wf(),
        before.symmetric(),
        x + w <= before.width,
        y + h <= before.height,
        k + 1 < w,
        y <= gap < y + h,
        g1 == before.carve(((x + k) as usize, gap), Direction::East),
        forall|c: Coords| g1.in_bounds(c) && !in_chamber(c, x, y, (k + 1) as usize, h) ==> #[trigger] g2.cell(c) == g1.cell(c),
        inner_closed(g1, x, y, (k + 1) as usize, h) ==> open_sides(g2.cells) == open_sides(g1.cells) + 2 * ((k + 1) * h - 1),
        forall|c: Coords| g2.in_bounds(c) && !in_chamber(c, (x + k + 1) as usize, y, (w - k - 1) as usize, h)
            ==> #[trigger] g3.cell(c) == g2.cell(c),
        inner_closed(g2, (x + k + 1) as usize, y, (w - k - 1) as usize, h) ==> open_sides(g3.cells) == open_sides(g2.cells)
            + 2 * ((w - k - 1) * h - 1),
        g1.width == before.width && g1.height == before.height,
        g2.width == before.width && g2.height == before.height,
    ensures
        forall|c: Coords| before.in_bounds(c) && !in_chamber(c, x, y, w, h) ==> #[trigger] g3.cell(c) == before.cell(c),
        inner_closed(before, x, y, w, h) ==> open_sides(g3.cells) == open_sides(before.cells) + 2 * (w * h - 1),
{
    let left: Coords = ((x + k) as usize, gap);
    let right: Coords = ((x + k + 1) as usize, gap);
    assert(before.neighbor(left, Direction::East) == Some(right));
    lemma_carve_grows(before, left, Direction::East);
    assert forall|c: Coords| before.in_bounds(c) && !in_chamber(c, x, y, w, h) implies #[trigger] g3.cell(c) == before.cell(c) by {
        assert(g1.cell(c) == before.cell(c));
        assert(g2.cell(c) == g1.cell(c));
    }
    if inner_closed(before, x, y, w, h) {
        assert(in_chamber(left, x, y, w, h) && in_chamber(right, x, y, w, h));
        assert(!before.carved(left, Direction::East));
        lemma_carve_closed(before, left, Direction::East, right);
        assert forall|c: Coords, d: Direction| in_chamber(c, x, y, (k + 1) as usize, h) && #[trigger] g1.carved(c, d)
            implies match g1.neighbor(c, d) {
                Some(n) => !in_chamber(n, x, y, (k + 1) as usize, h),
                None => true,
            } by {
            assert(in_chamber(c, x, y, w, h));
        }
        assert forall|c: Coords, d: Direction| in_chamber(c, (x + k + 1) as usize, y, (w - k - 1) as usize, h)
            && #[trigger] g2.carved(c, d) implies match g2.neighbor(c, d) {
                Some(n) => !in_chamber(n, (x + k + 1) as usize, y, (w - k - 1) as usize, h),
                None => true,
            } by {
            assert(in_chamber(c, x, y, w, h));
            assert(!in_chamber(c, x, y, (k + 1) as usize, h));
            assert(g2.cell(c) == g1.cell(c));
            assert(g1.carved(c, d));
        }
        assert((k + 1) * h + (w - k - 1) * h == w * h) by (nonlinear_arith);
    }
}

/// The "Recursive Division" algorithm on the chamber of `w` by `h` cells whose
/// top-left cell is `(x, y)`: a wall across the chamber leaves one gap, and each
/// side is divided in turn until chambers are single cells. Only the gaps are
/// carved, which leaves the same passages as walling an open chamber.
pub(crate) fn divide(grid: &mut Grid, x: usize, y: usize, w: usize, h: usize, rng: &mut StdRng)
    requires
        old(grid).wf(),
        w >= 1,
        h >= 1,
        x + w <= old(grid)@.width,
        y + h <= old(grid)@.height,
    ensures
        final(grid).wf(),
        grows_into(old(grid)@, final(grid)@),
        forall|c: Coords| in_chamber(c, x, y, w, h) ==> #[trigger] reachable(final(grid)@, (x, y), c),
        forall|c: Coords| old(grid)@.in_bounds(c) && !in_chamber(c, x, y, w, h) ==> #[trigger] final(grid)@.cell(c)
            == old(grid)@.cell(c),
        inner_closed(old(grid)@, x, y, w, h) ==> open_sides(final(grid)@.cells) == open_sides(old(grid)@.cells) + 2 * (w
            * h - 1),
    decreases w + h,
{
    let ghost g0 = grid@;
    if w <= 1 && h <= 1 {
        proof {
            assert forall|c: Coords| in_chamber(c, x, y, w, h) implies #[trigger] reachable(grid@, (x, y), c) by {
                assert(c == (x, y));
                lemma_reachable_refl(grid@, c);
            }
            assert(w * h == 1) by (nonlinear_arith)
                requires
                    w == 1,
                    h == 1,
            ;
        }
        return;
    }
    let horizontal = if w < h {
        true
    } else if h < w {
        false
    } else {
        random_coin(rng)
    };
    if horizontal {
        let k = random_below(rng, h - 1);
        let gap = x + random_below(rng, w);
        let ghost before = grid@;
        carve_if_possible(grid, (gap, y + k), Direction::South);
        let ghost g1 = grid@;
        divide(grid, x, y, w, k + 1, rng);
        let ghost g2 = grid@;
        divide(grid, x, y + k + 1, w, h - k - 1, rng);
        proof {
            let g3 = grid@;
            lemma_grows_into_trans(g0, g1, g2);
            lemma_grows_into_trans(g0, g2, g3);
            lemma_grows_into_trans(g1, g2, g3);
            lemma_carve_grows(before, (gap, (y + k) as usize), Direction::South);
            let top: Coords = (gap, (y + k) as usize);
            let bottom: Coords = (gap, (y + k + 1) as usize);
            let corner: Coords = (x, (y + k + 1) as usize);
            lemma_split_rows(before, g1, g2, g3, x, y, w, h, k as usize, gap);
            assert(before.neighbor(top, Direction::South) == Some(bottom));
            assert(g3.carved(top, Direction::South));
            assert(reachable(g2, (x, y), top));
            lemma_reachable_grows(g2, g3, (x, y), top);
            lemma_step_reachable(g3, (x, y), top, Direction::South, bottom);
            assert(reachable(g3, corner, bottom));
            lemma_reachable_symmetric(g3, corner, bottom);
            lemma_reachable_trans(g3, (x, y), bottom, corner);
            assert forall|c: Coords| in_chamber(c, x, y, w, h) implies #[trigger] reachable(g3, (x, y), c) by {
                if c.1 < y + k + 1 {
                    assert(in_chamber(c, x, y, w, (k + 1) as usize));
                    lemma_reachable_grows(g2, g3, (x, y), c);
                } else {
                    assert(in_chamber(c, x, (y + k + 1) as usize, w, (h - k - 1) as usize));
                    lemma_reachable_trans(g3, (x, y), corner, c);
                }
            }
        }
    } else {
        let k = random_below(rng, w - 1);
        let gap = y + random_below(rng, h);
        let ghost before = grid@;
        carve_if_possible(grid, (x + k, gap), Direction::East);
        let ghost g1 = grid@;
        divide(grid, x, y, k + 1, h, rng);
        let ghost g2 = grid@;
        divide(grid, x + k + 1, y, w - k - 1, h, rng);
        proof {
            let g3 = grid@;
            lemma_grows_into_trans(g0, g1, g2);
            lemma_grows_into_trans(g0, g2, g3);
            lemma_grows_into_trans(g1, g2, g3);
            lemma_carve_grows(before, ((x + k) as usize, gap), Direction::East);
            let left: Coords = ((x + k) as usize, gap);
            let right: Coords = ((x + k + 1) as usize, gap);
            let corner: Coords = ((x + k + 1) as usize, y);
            lemma_split_columns(before, g1, g2, g3, x, y, w, h, k as usize, gap);
            assert(before.neighbor(left, Direction::East) == Some(right));
            assert(g3.carved(left, Direction::East));
            assert(reachable(g2, (x, y), left));
            lemma_reachable_grows(g2, g3, (x, y), left);
            lemma_step_reachable(g3, (x, y), left, Direction::East, right);
            assert(reachable(g3, corner, right));
            lemma_reachable_symmetric(g3, corner, right);
            lemma_reachable_trans(g3, (x, y), right, corner);
            assert forall|c: Coords| in_chamber(c, x, y, w, h) implies #[trigger] reachable(g3, (x, y), c) by {
                if c.0 < x + k + 1 {
                    assert(in_chamber(c, x, y, (k + 1) as usize, h));
                    lemma_reachable_grows(g2, g3, (x, y), c);
                } else {
                    assert(in_chamber(c, (x + k + 1) as usize, y, (w - k - 1) as usize, h));
                    lemma_reachable_trans(g3, (x, y), corner, c);
                }
            }
        }
    }
}

} // verus!

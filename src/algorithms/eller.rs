//! Eller's algorithm.

use vstd::prelude::*;
use rand::rngs::StdRng;
use crate::cell::Direction;
use crate::grid::{Coords, Grid, GridView, lemma_index_in_range};
use crate::rng::random_coin;
use crate::validate::{fully_connected, lemma_reachable_refl, lemma_reachable_symmetric, lemma_reachable_trans, lemma_step_reachable, reachable};
use super::{grows_into, lemma_carve_grows, lemma_grows_into_trans, lemma_reachable_grows, unvisited};

verus! {

/// Cells of row `y` with equal labels reach each other.
pub open spec fn row_joined(g: GridView, y: usize, ids: Seq<usize>) -> bool {
    forall|a: usize, b: usize|
        #![trigger ids[a as int], ids[b as int]]
        a < ids.len() && b < ids.len() && ids[a as int] == ids[b as int] ==> reachable(g, (a, y), (b, y))
}

/// Every cell above row `y` reaches some cell of row `y`.
pub open spec fn above_reaches(g: GridView, y: usize) -> bool {
    forall|c: Coords|
        g.in_bounds(c) && c.1 < y ==> exists|x: usize| x < g.width && #[trigger] reachable(g, c, (x, y))
}

/// The label of cell `a` has a cell marked in `down`.
pub open spec fn set_goes_down(ids: Seq<usize>, down: Seq<bool>, a: usize) -> bool {
    exists|b: usize| b < ids.len() && #[trigger] ids[b as int] == ids[a as int] && down[b as int]
}

/// Each label of the row has a cell marked in `down`.
pub open spec fn every_set_goes_down(ids: Seq<usize>, down: Seq<bool>) -> bool {
    forall|a: usize| a < ids.len() ==> #[trigger] set_goes_down(ids, down, a)
}

/// Replaces label `from` by `to` throughout the row.
pub(crate) fn relabel(ids: &mut Vec<usize>, from: usize, to: usize)
    ensures
        final(ids)@.len() == old(ids)@.len(),
        forall|j: int| 0 <= j < old(ids)@.len() ==> #[trigger] final(ids)@[j] == (if old(ids)@[j] == from { to } else { old(ids)@[j] }),
{
    let ghost start = ids@;
    let n = ids.len();
    let mut i: usize = 0;
    while i < n
        invariant
            ids@.len() == n == start.len(),
            i <= n,
            forall|j: int| 0 <= j < i ==> #[trigger] ids@[j] == (if start[j] == from { to } else { start[j] }),
            forall|j: int| i <= j < n ==> #[trigger] ids@[j] == start[j],
        decreases n - i,
    {
        if ids[i] == from {
            ids.set(i, to);
        }
        i = i + 1;
    }
}

pub(crate) proof fn lemma_row_grows(a: GridView, b: GridView, y: usize, ids: Seq<usize>)
    requires
        grows_into(a, b),
        row_joined(a, y, ids),
    ensures
        row_joined(b, y, ids),
{
    assert forall|p: usize, q: usize|
        #![trigger ids[p as int], ids[q as int]]
        p < ids.len() && q < ids.len() && ids[p as int] == ids[q as int] implies reachable(b, (p, y), (q, y)) by {
        lemma_reachable_grows(a, b, (p, y), (q, y));
    }
}

pub(crate) proof fn lemma_above_grows(a: GridView, b: GridView, y: usize)
    requires
        grows_into(a, b),
        above_reaches(a, y),
    ensures
        above_reaches(b, y),
{
    assert forall|c: Coords| b.in_bounds(c) && c.1 < y implies exists|x: usize| x < b.width && #[trigger] reachable(b, c, (x, y)) by {
        assert(a.in_bounds(c));
        let x = choose|x: usize| x < a.width && #[trigger] reachable(a, c, (x, y));
        lemma_reachable_grows(a, b, c, (x, y));
    }
}

/// Joining the sets of cells `x` and `x + 1` through an open passage keeps the
/// row's labels joined once the second set takes the first one's label.
pub(crate) proof fn lemma_row_merge(g: GridView, y: usize, old_ids: Seq<usize>, new_ids: Seq<usize>, x: usize)
    requires
        g.wf(),
        g.symmetric(),
        row_joined(g, y, old_ids),
        x + 1 < old_ids.len(),
        old_ids.len() <= usize::MAX,
        reachable(g, (x, y), ((x + 1) as usize, y)),
        new_ids.len() == old_ids.len(),
        forall|j: int| 0 <= j < old_ids.len() ==> #[trigger] new_ids[j] == (if old_ids[j] == old_ids[x + 1] { old_ids[x as int] } else { old_ids[j] }),
    ensures
        row_joined(g, y, new_ids),
{
    let a = old_ids[x as int];
    let b = old_ids[x + 1];
    let x1 = (x + 1) as usize;
    assert forall|p: usize, q: usize|
        #![trigger new_ids[p as int], new_ids[q as int]]
        p < new_ids.len() && q < new_ids.len() && new_ids[p as int] == new_ids[q as int] implies reachable(g, (p, y), (q, y)) by {
        let op = old_ids[p as int];
        let oq = old_ids[q as int];
        assert(new_ids[p as int] == (if op == b { a } else { op }));
        assert(new_ids[q as int] == (if oq == b { a } else { oq }));
        if op == oq {
        } else if op == b {
            assert(oq == a);
            assert(old_ids[p as int] == old_ids[x1 as int]);
            assert(old_ids[q as int] == old_ids[x as int]);
            assert(reachable(g, (p, y), (x1, y)));
            assert(reachable(g, (x, y), (q, y)));
            lemma_reachable_symmetric(g, (x, y), (x1, y));
            lemma_reachable_trans(g, (p, y), (x1, y), (x, y));
            lemma_reachable_trans(g, (p, y), (x, y), (q, y));
        } else {
            assert(op == a && oq == b);
            assert(old_ids[p as int] == old_ids[x as int]);
            assert(old_ids[q as int] == old_ids[x1 as int]);
            assert(reachable(g, (p, y), (x, y)));
            assert(reachable(g, (x1, y), (q, y)));
            lemma_reachable_trans(g, (p, y), (x, y), (x1, y));
            lemma_reachable_trans(g, (p, y), (x1, y), (q, y));
        }
    }
}

/// Merges neighboring sets of row `y` at random, or every one of them on the
/// last row, carving between them.
pub(crate) fn eller_merge_row(grid: &mut Grid, ids: &mut Vec<usize>, y: usize, last_row: bool, rng: &mut StdRng, Ghost(bound): Ghost<nat>)
    requires
        old(grid).wf(),
        y < old(grid)@.height,
        old(ids)@.len() == old(grid)@.width,
        old(grid)@.width > 0,
        row_joined(old(grid)@, y, old(ids)@),
        above_reaches(old(grid)@, y),
        forall|j: int| 0 <= j < old(ids)@.len() ==> #[trigger] old(ids)@[j] < bound,
    ensures
        final(grid).wf(),
        grows_into(old(grid)@, final(grid)@),
        final(ids)@.len() == old(ids)@.len(),
        row_joined(final(grid)@, y, final(ids)@),
        above_reaches(final(grid)@, y),
        forall|j: int| 0 <= j < final(ids)@.len() ==> #[trigger] final(ids)@[j] < bound,
        last_row ==> forall|j: int| 0 <= j < final(ids)@.len() ==> #[trigger] final(ids)@[j] == final(ids)@[0],
{
    let ghost g0 = grid@;
    let w = grid.width();
    let mut x: usize = 0;
    while x + 1 < w
        invariant
            grid.wf(),
            grows_into(g0, grid@),
            g0.wf(),
            w == grid@.width,
            y < grid@.height,
            x + 1 <= w,
            ids@.len() == w,
            forall|j: int| 0 <= j < w ==> #[trigger] ids@[j] < bound,
            row_joined(grid@, y, ids@),
            above_reaches(grid@, y),
            last_row ==> forall|j: int| 0 <= j <= x ==> #[trigger] ids@[j] == ids@[0],
        decreases w - x,
    {
        if ids[x] != ids[x + 1] && (last_row || random_coin(rng)) {
            let ghost before = grid@;
            proof {
                lemma_carve_grows(before, (x, y), Direction::East);
                lemma_grows_into_trans(g0, before, before.carve((x, y), Direction::East));
            }
            let _ = grid.carve_passage((x, y), Direction::East);
            let ghost old_ids = ids@;
            let from = ids[x + 1];
            let to = ids[x];
            relabel(ids, from, to);
            proof {
                let g1 = grid@;
                lemma_row_grows(before, g1, y, old_ids);
                lemma_above_grows(before, g1, y);
                assert(before.neighbor((x, y), Direction::East) == Some(((x + 1) as usize, y)));
                lemma_reachable_refl(g1, (x, y));
                lemma_step_reachable(g1, (x, y), (x, y), Direction::East, ((x + 1) as usize, y));
                lemma_row_merge(g1, y, old_ids, ids@, x);
                assert forall|j: int| 0 <= j < w implies #[trigger] ids@[j] < bound by {
                    assert(ids@[j] == (if old_ids[j] == from { to } else { old_ids[j] }));
                    assert(old_ids[x as int] < bound);
                }
                if last_row {
                    assert forall|j: int| 0 <= j <= x + 1 implies #[trigger] ids@[j] == ids@[0] by {
                        assert(ids@[j] == (if old_ids[j] == from { to } else { old_ids[j] }));
                        assert(ids@[0] == (if old_ids[0] == from { to } else { old_ids[0] }));
                        if j <= x {
                            assert(old_ids[j] == old_ids[0]);
                        }
                        assert(old_ids[x as int] == old_ids[0]);
                    }
                }
            }
        } else {
            proof {
                if last_row {
                    assert(ids@[x as int] == ids@[x + 1]);
                }
            }
        }
        x = x + 1;
    }
}

/// Opens passages down from row `y` at random, and from the last cell of each
/// set that has none yet, so that every set of the row goes down.
pub(crate) fn eller_down(grid: &mut Grid, ids: &Vec<usize>, y: usize, rng: &mut StdRng) -> (down: Vec<bool>)
    requires
        old(grid).wf(),
        y + 1 < old(grid)@.height,
        ids@.len() == old(grid)@.width,
        row_joined(old(grid)@, y, ids@),
        above_reaches(old(grid)@, y),
    ensures
        final(grid).wf(),
        grows_into(old(grid)@, final(grid)@),
        row_joined(final(grid)@, y, ids@),
        above_reaches(final(grid)@, y),
        down@.len() == ids@.len(),
        forall|j: int| 0 <= j < down@.len() && #[trigger] down@[j] ==> final(grid)@.carved((j as usize, y), Direction::South),
        every_set_goes_down(ids@, down@),
{
    let ghost g0 = grid@;
    let w = grid.width();
    let mut down: Vec<bool> = Vec::new();
    let mut x: usize = 0;
    while x < w
        invariant
            grid.wf(),
            g0.wf(),
            grows_into(g0, grid@),
            w == grid@.width,
            y + 1 < grid@.height,
            x <= w,
            ids@.len() == w,
            down@.len() == x,
            row_joined(grid@, y, ids@),
            above_reaches(grid@, y),
            forall|j: int| 0 <= j < x && #[trigger] down@[j] ==> grid@.carved((j as usize, y), Direction::South),
            forall|a: usize| #![trigger ids@[a as int]] a < x ==> (exists|b: usize| b < x && #[trigger] ids@[b as int] == ids@[a as int] && down@[b as int])
                || (exists|b: usize| x <= b < w && #[trigger] ids@[b as int] == ids@[a as int]),
        decreases w - x,
    {
        let mut later = false;
        let mut k: usize = x + 1;
        while k < w
            invariant
                x < k <= w,
                ids@.len() == w,
                later == exists|b: usize| x < b < k && #[trigger] ids@[b as int] == ids@[x as int],
            decreases w - k,
        {
            if ids[k] == ids[x] {
                later = true;
            }
            k = k + 1;
        }
        let mut earlier = false;
        let mut k: usize = 0;
        while k < x
            invariant
                k <= x < w,
                ids@.len() == w,
                down@.len() == x,
                earlier == exists|b: usize| b < k && #[trigger] ids@[b as int] == ids@[x as int] && down@[b as int],
            decreases x - k,
        {
            if ids[k] == ids[x] && down[k] {
                earlier = true;
            }
            k = k + 1;
        }
        let go = random_coin(rng) || (!later && !earlier);
        let ghost before = grid@;
        let ghost down0 = down@;
        if go {
            proof {
                lemma_carve_grows(before, (x, y), Direction::South);
                lemma_grows_into_trans(g0, before, before.carve((x, y), Direction::South));
            }
            let _ = grid.carve_passage((x, y), Direction::South);
            proof {
                lemma_row_grows(before, grid@, y, ids@);
                lemma_above_grows(before, grid@, y);
            }
        }
        down.push(go);
        proof {
            let g1 = grid@;
            assert(go ==> g1.carved((x, y), Direction::South));
            assert(!go ==> g1 == before);
            assert forall|j: int| 0 <= j < x + 1 && #[trigger] down@[j] implies g1.carved((j as usize, y), Direction::South) by {
                if j < x {
                    assert(down@[j] == down0[j]);
                    if go {
                        assert(before.carved((j as usize, y), Direction::South));
                        lemma_index_in_range(before.width, before.height, (j as usize, y));
                    }
                }
            }
            assert forall|a: usize| #![trigger ids@[a as int]] a < x + 1 implies (exists|b: usize| b < x + 1 && #[trigger] ids@[b as int] == ids@[a as int] && down@[b as int])
                || (exists|b: usize| x + 1 <= b < w && #[trigger] ids@[b as int] == ids@[a as int]) by {
                if a < x {
                    if exists|b: usize| b < x && #[trigger] ids@[b as int] == ids@[a as int] && down0[b as int] {
                        let b = choose|b: usize| b < x && #[trigger] ids@[b as int] == ids@[a as int] && down0[b as int];
                        assert(down@[b as int] == down0[b as int]);
                    } else {
                        let b = choose|b: usize| x <= b < w && #[trigger] ids@[b as int] == ids@[a as int];
                        if b == x {
                            if go {
                                assert(down@[x as int]);
                            } else if later {
                                let b2 = choose|b2: usize| x < b2 < w && #[trigger] ids@[b2 as int] == ids@[x as int];
                                assert(ids@[b2 as int] == ids@[a as int]);
                            } else {
                                let b2 = choose|b2: usize| b2 < x && #[trigger] ids@[b2 as int] == ids@[x as int] && down0[b2 as int];
                                assert(down@[b2 as int] == down0[b2 as int]);
                                assert(ids@[b2 as int] == ids@[a as int]);
                            }
                        } else {
                            assert(ids@[b as int] == ids@[a as int]);
                        }
                    }
                } else {
                    if go {
                        assert(down@[x as int]);
                    } else if later {
                        let b2 = choose|b2: usize| x < b2 < w && #[trigger] ids@[b2 as int] == ids@[x as int];
                        assert(ids@[b2 as int] == ids@[a as int]);
                    } else {
                        let b2 = choose|b2: usize| b2 < x && #[trigger] ids@[b2 as int] == ids@[x as int] && down0[b2 as int];
                        assert(down@[b2 as int] == down0[b2 as int]);
                    }
                }
            }
        }
        x = x + 1;
    }
    proof {
        assert(x == w);
        assert forall|a: usize| a < ids@.len() implies #[trigger] set_goes_down(ids@, down@, a) by {
            assert(a < x);
            assert(ids@[a as int] == ids@[a as int]);
            if !(exists|b: usize| b < x && #[trigger] ids@[b as int] == ids@[a as int] && down@[b as int]) {
                let b = choose|b: usize| x <= b < w && #[trigger] ids@[b as int] == ids@[a as int];
                assert(false);
            }
        }
        assert(every_set_goes_down(ids@, down@));
    }
    down
}

/// Gives every cell of the next row that no passage reaches from above a
/// fresh label, counting up from `next`.
pub(crate) fn eller_fresh_labels(ids: &mut Vec<usize>, down: &Vec<bool>, next: &mut usize)
    requires
        old(ids)@.len() == down@.len(),
        forall|j: int| 0 <= j < old(ids)@.len() ==> #[trigger] old(ids)@[j] < *old(next),
        *old(next) + down@.len() <= usize::MAX,
    ensures
        final(ids)@.len() == old(ids)@.len(),
        *old(next) <= *final(next) <= *old(next) + down@.len(),
        forall|j: int| 0 <= j < down@.len() && #[trigger] down@[j] ==> final(ids)@[j] == old(ids)@[j],
        forall|j: int| 0 <= j < down@.len() && !#[trigger] down@[j] ==> *old(next) <= final(ids)@[j],
        forall|j: int, k: int| 0 <= j < k < down@.len() && !down@[j] && !down@[k] ==> #[trigger] final(ids)@[j] != #[trigger] final(ids)@[k],
        forall|j: int| 0 <= j < final(ids)@.len() ==> #[trigger] final(ids)@[j] < *final(next),
{
    let ghost start_ids = ids@;
    let ghost start_next = *next;
    let n = ids.len();
    let mut x: usize = 0;
    while x < n
        invariant
            ids@.len() == n == down@.len() == start_ids.len(),
            x <= n,
            start_next <= *next <= start_next + x,
            start_next + n <= usize::MAX,
            forall|j: int| 0 <= j < n ==> #[trigger] start_ids[j] < start_next,
            forall|j: int| x <= j < n ==> #[trigger] ids@[j] == start_ids[j],
            forall|j: int| 0 <= j < x && #[trigger] down@[j] ==> ids@[j] == start_ids[j],
            forall|j: int| 0 <= j < x && !#[trigger] down@[j] ==> start_next <= ids@[j] < *next,
            forall|j: int, k: int| 0 <= j < k < x && !down@[j] && !down@[k] ==> #[trigger] ids@[j] != #[trigger] ids@[k],
        decreases n - x,
    {
        if !down[x] {
            ids.set(x, *next);
            *next = *next + 1;
        }
        x = x + 1;
    }
    proof {
        assert forall|j: int| 0 <= j < ids@.len() implies #[trigger] ids@[j] < *next by {
            if down@[j] {
                assert(start_ids[j] < start_next);
            }
        }
    }
}

/// Cells of the next row that came down from one set, or that carry the same
/// fresh label, reach each other.
pub(crate) proof fn lemma_eller_next_joined(
    g: GridView,
    y: usize,
    row_ids: Seq<usize>,
    ids: Seq<usize>,
    down: Seq<bool>,
    next0: usize,
)
    requires
        g.wf(),
        g.symmetric(),
        y + 1 < g.height,
        row_ids.len() == g.width,
        ids.len() == g.width,
        down.len() == g.width,
        row_joined(g, y, row_ids),
        forall|j: int| 0 <= j < down.len() && #[trigger] down[j] ==> g.carved((j as usize, y), Direction::South),
        forall|j: int| 0 <= j < row_ids.len() ==> #[trigger] row_ids[j] < next0,
        forall|j: int| 0 <= j < down.len() && #[trigger] down[j] ==> ids[j] == row_ids[j],
        forall|j: int| 0 <= j < down.len() && !#[trigger] down[j] ==> next0 <= ids[j],
        forall|j: int, k: int| 0 <= j < k < down.len() && !down[j] && !down[k] ==> #[trigger] ids[j] != #[trigger] ids[k],
    ensures
        row_joined(g, (y + 1) as usize, ids),
{
    let ny = (y + 1) as usize;
    assert forall|p: usize, q: usize|
        #![trigger ids[p as int], ids[q as int]]
        p < ids.len() && q < ids.len() && ids[p as int] == ids[q as int] implies reachable(g, (p, ny), (q, ny)) by {
        if p == q {
            lemma_reachable_refl(g, (p, ny));
        } else if down[p as int] && down[q as int] {
            assert(row_ids[p as int] == row_ids[q as int]);
            assert(reachable(g, (p, y), (q, y)));
            assert(g.neighbor((p, y), Direction::South) == Some((p, ny)));
            assert(g.neighbor((q, y), Direction::South) == Some((q, ny)));
            lemma_reachable_refl(g, (q, y));
            lemma_step_reachable(g, (q, y), (q, y), Direction::South, (q, ny));
            lemma_reachable_refl(g, (p, y));
            lemma_step_reachable(g, (p, y), (p, y), Direction::South, (p, ny));
            lemma_reachable_symmetric(g, (p, y), (p, ny));
            lemma_reachable_trans(g, (p, ny), (p, y), (q, y));
            lemma_reachable_trans(g, (p, ny), (q, y), (q, ny));
        } else if down[p as int] {
            assert(row_ids[p as int] < next0);
        } else if down[q as int] {
            assert(row_ids[q as int] < next0);
        } else {
            if p < q {
                assert(ids[p as int] != ids[q as int]);
            } else {
                assert(ids[q as int] != ids[p as int]);
            }
        }
    }
}

/// When every set of row `y` goes down, every cell above the next row reaches it.
pub(crate) proof fn lemma_eller_next_reached(g: GridView, y: usize, row_ids: Seq<usize>, down: Seq<bool>)
    requires
        g.wf(),
        y + 1 < g.height,
        row_ids.len() == g.width,
        down.len() == g.width,
        row_joined(g, y, row_ids),
        above_reaches(g, y),
        forall|j: int| 0 <= j < down.len() && #[trigger] down[j] ==> g.carved((j as usize, y), Direction::South),
        every_set_goes_down(row_ids, down),
    ensures
        above_reaches(g, (y + 1) as usize),
{
    let ny = (y + 1) as usize;
    assert forall|c: Coords| g.in_bounds(c) && c.1 < ny implies exists|x: usize| x < g.width && #[trigger] reachable(g, c, (x, ny)) by {
        let x0: usize = if c.1 == y {
            c.0
        } else {
            choose|x: usize| x < g.width && #[trigger] reachable(g, c, (x, y))
        };
        if c.1 == y {
            lemma_reachable_refl(g, c);
        }
        assert(reachable(g, c, (x0, y)));
        assert(set_goes_down(row_ids, down, x0));
        let b = choose|b: usize| b < row_ids.len() && #[trigger] row_ids[b as int] == row_ids[x0 as int] && down[b as int];
        assert(g.carved((b, y), Direction::South));
        assert(reachable(g, (x0, y), (b, y)));
        assert(g.neighbor((b, y), Direction::South) == Some((b, ny)));
        lemma_reachable_trans(g, c, (x0, y), (b, y));
        lemma_step_reachable(g, c, (b, y), Direction::South, (b, ny));
    }
}

/// When the last row holds one set, every cell reaches its first cell.
pub(crate) proof fn lemma_eller_last_row(g: GridView, y: usize, ids: Seq<usize>)
    requires
        y + 1 == g.height,
        ids.len() == g.width,
        row_joined(g, y, ids),
        above_reaches(g, y),
        forall|j: int| 0 <= j < ids.len() ==> #[trigger] ids[j] == ids[0],
    ensures
        forall|c: Coords| g.in_bounds(c) ==> #[trigger] reachable(g, c, (0usize, y)),
{
    let corner: Coords = (0usize, y);
    assert forall|c: Coords| g.in_bounds(c) implies #[trigger] reachable(g, c, corner) by {
        if c.1 == y {
            assert(ids[c.0 as int] == ids[0]);
            assert(reachable(g, (c.0, y), (0usize, y)));
        } else {
            let x = choose|x: usize| x < g.width && #[trigger] reachable(g, c, (x, y));
            assert(ids[x as int] == ids[0]);
            assert(reachable(g, (x, y), (0usize, y)));
            lemma_reachable_trans(g, c, (x, y), corner);
        }
    }
}

/// Eller's algorithm: row by row, merges neighboring sets at random, then lets
/// every set of the row carve down at least once; the last row merges every
/// set that is left.
pub(crate) fn eller(grid: &mut Grid, rng: &mut StdRng)
    requires
        old(grid).wf(),
    ensures
        final(grid).wf(),
        grows_into(old(grid)@, final(grid)@),
        final(grid)@.width * final(grid)@.height > 0 ==> fully_connected(final(grid)@),
{
    let ghost g0 = grid@;
    let w = grid.width();
    let h = grid.height();
    if w == 0 || h == 0 {
        proof {
            assert(unvisited(g0) =~= unvisited(grid@));
            assert(g0.width * g0.height == 0) by (nonlinear_arith)
                requires
                    g0.width == 0 || g0.height == 0,
            ;
        }
        return;
    }
    let mut ids: Vec<usize> = Vec::new();
    let mut i: usize = 0;
    while i < w
        invariant
            i <= w,
            ids@.len() == i,
            forall|j: int| 0 <= j < i ==> #[trigger] ids@[j] == j,
        decreases w - i,
    {
        ids.push(i);
        i = i + 1;
    }
    let mut next: usize = w;
    proof {
        assert forall|p: usize, q: usize|
            #![trigger ids@[p as int], ids@[q as int]]
            p < ids@.len() && q < ids@.len() && ids@[p as int] == ids@[q as int] implies reachable(grid@, (p, 0usize), (q, 0usize)) by {
            lemma_reachable_refl(grid@, (p, 0usize));
        }
        assert(1 * w == w);
    }
    let mut y: usize = 0;
    while y < h
        invariant
            grid.wf(),
            g0.wf(),
            grows_into(g0, grid@),
            w == grid@.width,
            h == grid@.height,
            w > 0,
            w * h <= usize::MAX,
            y <= h,
            ids@.len() == w,
            next <= (y + 1) * w,
            forall|j: int| 0 <= j < w ==> #[trigger] ids@[j] < next,
            y < h ==> row_joined(grid@, y, ids@),
            y < h ==> above_reaches(grid@, y),
            y == h ==> forall|c: Coords| grid@.in_bounds(c) ==> #[trigger] reachable(grid@, c, (0usize, (h - 1) as usize)),
        decreases h - y,
    {
        let last_row = y + 1 == h;
        eller_merge_row(grid, &mut ids, y, last_row, rng, Ghost(next as nat));
        if last_row {
            proof {
                assert((y + 1) * w <= (y + 2) * w) by (nonlinear_arith)
                    requires
                        w > 0,
                ;
                lemma_eller_last_row(grid@, y, ids@);
            }
        } else {
            let ghost row_ids = ids@;
            let down = eller_down(grid, &ids, y, rng);
            proof {
                assert(next + w <= usize::MAX && (y + 1) * w + w == (y + 2) * w) by (nonlinear_arith)
                    requires
                        next <= (y + 1) * w,
                        y + 2 <= h,
                        w * h <= usize::MAX,
                ;
            }
            let ghost next0 = next;
            eller_fresh_labels(&mut ids, &down, &mut next);
            proof {
                lemma_eller_next_joined(grid@, y, row_ids, ids@, down@, next0);
                lemma_eller_next_reached(grid@, y, row_ids, down@);
            }
        }
        y = y + 1;
    }
    proof {
        let g = grid@;
        let corner: Coords = (0usize, (h - 1) as usize);
        let origin: Coords = (0, 0);
        assert(reachable(g, origin, corner));
        assert forall|c: Coords| g.in_bounds(c) implies #[trigger] reachable(g, (0, 0), c) by {
            lemma_reachable_symmetric(g, c, corner);
            lemma_reachable_trans(g, origin, corner, c);
        }
        assert(g.width * g.height > 0) by (nonlinear_arith)
            requires
                g.width > 0,
                g.height > 0,
        ;
    }
}

} // verus!

//! Kruskal's algorithm.

use vstd::prelude::*;
use rand::rngs::StdRng;
use crate::cell::{opposite_of, Direction};
use crate::grid::{lemma_carve_wf, lemma_open_sides_blank, lemma_open_sides_update, open_sides, Coords, Grid, GridView, lemma_index_in_range, lemma_neighbor_in_bounds};
use crate::rng::shuffle;
use crate::validate::{fully_connected, lemma_reachable_refl, lemma_reachable_symmetric, lemma_reachable_trans, lemma_step_reachable, reachable};
use super::{is_blank, grows_into, lemma_carve_grows, lemma_grid_connected, lemma_grows_into_trans, lemma_reachable_grows};

verus! {

/// The two cells of every edge seen so far reach each other.
pub open spec fn edges_joined(g: GridView, edges: Seq<(Coords, Direction)>, k: int) -> bool {
    forall|j: int| 0 <= j < k ==> match g.neighbor((#[trigger] edges[j]).0, edges[j].1) {
        Some(n) => reachable(g, edges[j].0, n),
        None => true,
    }
}

/// Cells with the same set label reach each other.
pub open spec fn labels_joined(g: GridView, ids: Seq<usize>) -> bool {
    forall|x: Coords, y: Coords|
        #![trigger ids[g.index_of(x)], ids[g.index_of(y)]]
        g.in_bounds(x) && g.in_bounds(y) && ids[g.index_of(x)] == ids[g.index_of(y)] ==> reachable(g, x, y)
}

pub(crate) proof fn lemma_labels_grow(a: GridView, b: GridView, ids: Seq<usize>)
    requires
        grows_into(a, b),
        labels_joined(a, ids),
    ensures
        labels_joined(b, ids),
{
    assert forall|x: Coords, y: Coords|
        #![trigger ids[b.index_of(x)], ids[b.index_of(y)]]
        b.in_bounds(x) && b.in_bounds(y) && ids[b.index_of(x)] == ids[b.index_of(y)] implies reachable(b, x, y) by {
        assert(ids[a.index_of(x)] == ids[a.index_of(y)]);
        lemma_reachable_grows(a, b, x, y);
    }
}

pub(crate) proof fn lemma_edges_grow(a: GridView, b: GridView, edges: Seq<(Coords, Direction)>, k: int)
    requires
        grows_into(a, b),
        edges_joined(a, edges, k),
    ensures
        edges_joined(b, edges, k),
{
    assert forall|j: int| 0 <= j < k implies match b.neighbor((#[trigger] edges[j]).0, edges[j].1) {
        Some(n) => reachable(b, edges[j].0, n),
        None => true,
    } by {
        if let Some(n) = a.neighbor(edges[j].0, edges[j].1) {
            lemma_reachable_grows(a, b, edges[j].0, n);
        }
    }
}

/// Every open passage joins two cells with the same label.
pub open spec fn carved_same_label(g: GridView, ids: Seq<usize>) -> bool {
    forall|c: Coords, d: Direction| g.in_bounds(c) && #[trigger] g.carved(c, d) ==> match g.neighbor(c, d) {
        Some(m) => ids[g.index_of(c)] == ids[g.index_of(m)],
        None => true,
    }
}

/// The two cells of every edge seen so far carry the same label.
pub open spec fn edges_same_label(g: GridView, ids: Seq<usize>, edges: Seq<(Coords, Direction)>, k: int) -> bool {
    forall|j: int| 0 <= j < k ==> match g.neighbor((#[trigger] edges[j]).0, edges[j].1) {
        Some(m) => ids[g.index_of(edges[j].0)] == ids[g.index_of(m)],
        None => true,
    }
}

/// Relabelling `b` as `a`, where both occur, leaves one label fewer.
proof fn lemma_relabel_set(old_ids: Seq<usize>, new_ids: Seq<usize>, a: usize, b: usize, ia: int, ib: int)
    requires
        a != b,
        0 <= ia < old_ids.len(),
        0 <= ib < old_ids.len(),
        old_ids[ia] == a,
        old_ids[ib] == b,
        new_ids.len() == old_ids.len(),
        forall|j: int| 0 <= j < old_ids.len() ==> #[trigger] new_ids[j] == (if old_ids[j] == b { a } else { old_ids[j] }),
    ensures
        new_ids.to_set().len() == old_ids.to_set().len() - 1,
{
    assert forall|v: usize| #[trigger] new_ids.to_set().contains(v) == old_ids.to_set().remove(b).contains(v) by {
        if new_ids.to_set().contains(v) {
            let j = choose|j: int| 0 <= j < new_ids.len() && new_ids[j] == v;
            assert(old_ids.contains(old_ids[j]));
            if old_ids[j] == b {
                assert(old_ids[ia] == v);
            }
        }
        if old_ids.to_set().remove(b).contains(v) {
            let j = choose|j: int| 0 <= j < old_ids.len() && old_ids[j] == v;
            assert(new_ids[j] == v);
        }
    }
    assert(new_ids.to_set() =~= old_ids.to_set().remove(b));
    assert(old_ids.to_set().contains(b)) by {
        assert(old_ids.contains(b));
    }
}

/// Carving through a closed wall opens two sides, and opens exactly that
/// passage at its two ends.
pub(crate) proof fn lemma_carve_closed(g: GridView, c: Coords, d: Direction, m: Coords)
    requires
        g.wf(),
        g.symmetric(),
        g.in_bounds(c),
        g.neighbor(c, d) == Some(m),
        !g.carved(c, d),
    ensures
        open_sides(g.carve(c, d).cells) == open_sides(g.cells) + 2,
        forall|x: Coords, e: Direction| g.in_bounds(x) ==> (#[trigger] g.carve(c, d).carved(x, e) == (g.carved(x, e)
            || (x == c && e == d) || (x == m && e == opposite_of(d)))),
{
    lemma_carve_wf(g, c, d);
    lemma_carve_grows(g, c, d);
    let ic = g.index_of(c);
    let im = g.index_of(m);
    let od = opposite_of(d);
    assert(!g.carved(m, od));
    g.cell(c).lemma_with_passages(d);
    g.cell(m).lemma_with_passages(od);
    let s1 = g.cells.update(ic, g.cell(c).with(d));
    lemma_open_sides_update(g.cells, ic, g.cell(c).with(d));
    lemma_open_sides_update(s1, im, g.cell(m).with(od));
    assert(s1[im] == g.cell(m));
    assert forall|x: Coords, e: Direction| g.in_bounds(x) implies (#[trigger] g.carve(c, d).carved(x, e) == (g.carved(x, e)
        || (x == c && e == d) || (x == m && e == od))) by {
        g.cell(c).lemma_with(d, e);
        g.cell(m).lemma_with(od, e);
        if x != c && x != m {
            assert(g.carve(c, d).cell(x) == g.cell(x));
        }
    }
}

/// Carving the `k`-th edge between two differently labelled cells and merging
/// their labels keeps the label invariants; on a grid that started blank it
/// opens two sides for the one label that disappears.
proof fn lemma_kruskal_carve_step(
    before: GridView,
    g1: GridView,
    old_ids: Seq<usize>,
    new_ids: Seq<usize>,
    edges: Seq<(Coords, Direction)>,
    k: int,
    c: Coords,
    d: Direction,
    m: Coords,
    a: usize,
    b: usize,
    track: bool,
)
    requires
        before.wf(),
        before.symmetric(),
        g1 == before.carve(c, d),
        before.in_bounds(c),
        before.neighbor(c, d) == Some(m),
        0 <= k < edges.len(),
        edges[k] == (c, d),
        forall|j: int| 0 <= j < edges.len() ==> before.in_bounds((#[trigger] edges[j]).0) && before.neighbor(edges[j].0, edges[j].1) is Some,
        old_ids.len() == before.cells.len(),
        new_ids.len() == old_ids.len(),
        old_ids[before.index_of(c)] == a,
        old_ids[before.index_of(m)] == b,
        a != b,
        forall|j: int| 0 <= j < old_ids.len() ==> #[trigger] new_ids[j] == (if old_ids[j] == b { a } else { old_ids[j] }),
        edges_same_label(before, old_ids, edges, k),
        track ==> carved_same_label(before, old_ids),
        track ==> open_sides(before.cells) == 2 * (old_ids.len() - old_ids.to_set().len()),
    ensures
        edges_same_label(g1, new_ids, edges, k + 1),
        track ==> carved_same_label(g1, new_ids),
        track ==> open_sides(g1.cells) == 2 * (new_ids.len() - new_ids.to_set().len()),
{
    lemma_carve_wf(before, c, d);
    lemma_neighbor_in_bounds(before, c, d);
    lemma_index_in_range(before.width, before.height, c);
    lemma_index_in_range(before.width, before.height, m);
    assert forall|j: int| 0 <= j < k + 1 implies match g1.neighbor((#[trigger] edges[j]).0, edges[j].1) {
        Some(mm) => new_ids[g1.index_of(edges[j].0)] == new_ids[g1.index_of(mm)],
        None => true,
    } by {
        lemma_neighbor_in_bounds(before, edges[j].0, edges[j].1);
        if let Some(mm) = g1.neighbor(edges[j].0, edges[j].1) {
            lemma_index_in_range(g1.width, g1.height, edges[j].0);
            lemma_index_in_range(g1.width, g1.height, mm);
            if j == k {
                assert(edges[j] == (c, d));
            }
        }
    }
    if track {
        assert(!before.carved(c, d));
        lemma_carve_closed(before, c, d, m);
        lemma_relabel_set(old_ids, new_ids, a, b, before.index_of(c), before.index_of(m));
        assert forall|x: Coords, e: Direction| g1.in_bounds(x) && #[trigger] g1.carved(x, e) implies match g1.neighbor(x, e) {
            Some(mm) => new_ids[g1.index_of(x)] == new_ids[g1.index_of(mm)],
            None => true,
        } by {
            lemma_neighbor_in_bounds(before, x, e);
            lemma_index_in_range(g1.width, g1.height, x);
            if let Some(mm) = g1.neighbor(x, e) {
                lemma_index_in_range(g1.width, g1.height, mm);
                if before.carved(x, e) {
                } else if x == c && e == d {
                } else {
                    assert(x == m && e == opposite_of(d));
                    assert(mm == c);
                }
            }
        }
    }
}

/// Returns every pair of horizontally or vertically adjacent cells once, as a
/// cell and the direction east or south toward the other.
pub(crate) fn inner_edges(grid: &Grid) -> (r: Vec<(Coords, Direction)>)
    requires
        grid.wf(),
    ensures
        forall|j: int| 0 <= j < r@.len() ==> grid@.in_bounds((#[trigger] r@[j]).0) && grid@.neighbor(r@[j].0, r@[j].1) is Some,
        forall|c: Coords| grid@.in_bounds(c) && c.0 + 1 < grid@.width ==> #[trigger] r@.contains((c, Direction::East)),
        forall|c: Coords| grid@.in_bounds(c) && c.1 + 1 < grid@.height ==> #[trigger] r@.contains((c, Direction::South)),
{
    let ghost g = grid@;
    let w = grid.width();
    let h = grid.height();
    let mut edges: Vec<(Coords, Direction)> = Vec::new();
    let mut y: usize = 0;
    while y < h
        invariant
            grid.wf(),
            g == grid@,
            w == g.width,
            h == g.height,
            y <= h,
            forall|j: int| 0 <= j < edges@.len() ==> g.in_bounds((#[trigger] edges@[j]).0) && g.neighbor(edges@[j].0, edges@[j].1) is Some,
            forall|c: Coords| g.in_bounds(c) && c.1 < y && c.0 + 1 < w ==> #[trigger] edges@.contains((c, Direction::East)),
            forall|c: Coords| g.in_bounds(c) && c.1 < y && c.1 + 1 < h ==> #[trigger] edges@.contains((c, Direction::South)),
        decreases h - y,
    {
        let mut x: usize = 0;
        while x < w
            invariant
                grid.wf(),
                g == grid@,
                w == g.width,
                h == g.height,
                y < h,
                x <= w,
                forall|j: int| 0 <= j < edges@.len() ==> g.in_bounds((#[trigger] edges@[j]).0) && g.neighbor(edges@[j].0, edges@[j].1) is Some,
                forall|c: Coords| g.in_bounds(c) && (c.1 < y || (c.1 == y && c.0 < x)) && c.0 + 1 < w ==> #[trigger] edges@.contains((c, Direction::East)),
                forall|c: Coords| g.in_bounds(c) && (c.1 < y || (c.1 == y && c.0 < x)) && c.1 + 1 < h ==> #[trigger] edges@.contains((c, Direction::South)),
            decreases w - x,
        {
            let ghost e0 = edges@;
            if x + 1 < w {
                edges.push(((x, y), Direction::East));
            }
            let ghost e1 = edges@;
            if y + 1 < h {
                edges.push(((x, y), Direction::South));
            }
            proof {
                assert forall|e: (Coords, Direction)| e0.contains(e) implies edges@.contains(e) by {
                    let j = choose|j: int| 0 <= j < e0.len() && e0[j] == e;
                    assert(e1[j] == e);
                    assert(edges@[j] == e);
                }
                if x + 1 < w {
                    assert(e1[e1.len() - 1] == ((x, y), Direction::East));
                    assert(edges@[e1.len() - 1] == ((x, y), Direction::East));
                    assert(edges@.contains(((x, y), Direction::East)));
                }
                if y + 1 < h {
                    assert(edges@[edges@.len() - 1] == ((x, y), Direction::South));
                    assert(edges@.contains(((x, y), Direction::South)));
                }
                assert forall|c: Coords| g.in_bounds(c) && (c.1 < y || (c.1 == y && c.0 < x + 1)) && c.0 + 1 < w implies #[trigger] edges@.contains((c, Direction::East)) by {
                    if c != (x, y) {
                        assert(e0.contains((c, Direction::East)));
                    }
                }
                assert forall|c: Coords| g.in_bounds(c) && (c.1 < y || (c.1 == y && c.0 < x + 1)) && c.1 + 1 < h implies #[trigger] edges@.contains((c, Direction::South)) by {
                    if c != (x, y) {
                        assert(e0.contains((c, Direction::South)));
                    }
                }
                assert forall|j: int| 0 <= j < edges@.len() implies g.in_bounds((#[trigger] edges@[j]).0) && g.neighbor(edges@[j].0, edges@[j].1) is Some by {
                    if j < e0.len() {
                        assert(edges@[j] == e0[j]);
                    }
                }
            }
            x = x + 1;
        }
        y = y + 1;
    }
    edges
}

/// Kruskal's algorithm: goes through every pair of adjacent cells in a random
/// order and carves between the two when they are not yet joined, keeping one
/// set label per group of joined cells.
pub(crate) fn kruskal(grid: &mut Grid, rng: &mut StdRng)
    requires
        old(grid).wf(),
    ensures
        final(grid).wf(),
        grows_into(old(grid)@, final(grid)@),
        final(grid)@.width * final(grid)@.height > 0 ==> fully_connected(final(grid)@),
        is_blank(old(grid)@) && old(grid)@.width * old(grid)@.height > 0 ==> open_sides(final(grid)@.cells) == 2 * (
        old(grid)@.width * old(grid)@.height - 1),
{
    let ghost g0 = grid@;
    let ghost track = is_blank(g0);
    let mut edges = inner_edges(grid);
    let ghost listed = edges@;
    shuffle(&mut edges, rng);
    proof {
        assert forall|e: (Coords, Direction)| listed.contains(e) implies edges@.contains(e) by {
            vstd::seq_lib::to_multiset_contains(listed, e);
            vstd::seq_lib::to_multiset_contains(edges@, e);
        }
        assert forall|j: int| 0 <= j < edges@.len() implies g0.in_bounds((#[trigger] edges@[j]).0) && g0.neighbor(edges@[j].0, edges@[j].1) is Some by {
            vstd::seq_lib::to_multiset_contains(listed, edges@[j]);
            vstd::seq_lib::to_multiset_contains(edges@, edges@[j]);
            assert(edges@.contains(edges@[j]));
            let i = choose|i: int| 0 <= i < listed.len() && listed[i] == edges@[j];
            assert(listed[i] == edges@[j]);
        }
    }
    let n = grid.width() * grid.height();
    let mut ids: Vec<usize> = Vec::new();
    let mut i: usize = 0;
    while i < n
        invariant
            i <= n,
            ids@.len() == i,
            forall|j: int| 0 <= j < i ==> #[trigger] ids@[j] == j,
        decreases n - i,
    {
        ids.push(i);
        i = i + 1;
    }
    proof {
        assert forall|x: Coords, y: Coords|
            #![trigger ids@[g0.index_of(x)], ids@[g0.index_of(y)]]
            g0.in_bounds(x) && g0.in_bounds(y) && ids@[g0.index_of(x)] == ids@[g0.index_of(y)] implies reachable(g0, x, y) by {
            lemma_index_in_range(g0.width, g0.height, x);
            lemma_index_in_range(g0.width, g0.height, y);
            if g0.index_of(x) == g0.index_of(y) {
                crate::grid::lemma_index_injective(g0.width, x, y);
            }
            lemma_reachable_refl(g0, x);
        }
        assert(ids@.no_duplicates());
        ids@.unique_seq_to_set();
        if track {
            lemma_open_sides_blank(g0.cells);
            assert forall|c: Coords, d: Direction| g0.in_bounds(c) && #[trigger] g0.carved(c, d) implies match g0.neighbor(c, d) {
                Some(m) => ids@[g0.index_of(c)] == ids@[g0.index_of(m)],
                None => true,
            } by {
                lemma_index_in_range(g0.width, g0.height, c);
                assert(0u8 & 1 == 0 && 0u8 & 2 == 0 && 0u8 & 4 == 0 && 0u8 & 8 == 0) by (bit_vector);
            }
        }
    }
    let mut k: usize = 0;
    while k < edges.len()
        invariant
            grid.wf(),
            g0.wf(),
            grows_into(g0, grid@),
            n == g0.cells.len(),
            ids@.len() == n,
            forall|j: int| 0 <= j < edges@.len() ==> g0.in_bounds((#[trigger] edges@[j]).0) && g0.neighbor(edges@[j].0, edges@[j].1) is Some,
            labels_joined(grid@, ids@),
            edges_joined(grid@, edges@, k as int),
            k <= edges@.len(),
            track == is_blank(g0),
            edges_same_label(grid@, ids@, edges@, k as int),
            track ==> carved_same_label(grid@, ids@),
            track ==> open_sides(grid@.cells) == 2 * (n - ids@.to_set().len()),
        decreases edges@.len() - k,
    {
        let ghost before = grid@;
        let (c, d) = edges[k];
        proof {
            lemma_neighbor_in_bounds(g0, c, d);
        }
        if let Ok(m) = grid.get_next_cell_coords(c, d) {
            let ic = grid.get_index(c);
            let im = grid.get_index(m);
            let a = ids[ic];
            let b = ids[im];
            if a != b {
                proof {
                    lemma_carve_grows(before, c, d);
                    lemma_grows_into_trans(g0, before, before.carve(c, d));
                }
                let _ = grid.carve_passage(c, d);
                let ghost g1 = grid@;
                let ghost old_ids = ids@;
                proof {
                    lemma_labels_grow(before, g1, old_ids);
                    lemma_edges_grow(before, g1, edges@, k as int);
                    lemma_reachable_refl(g1, c);
                    lemma_step_reachable(g1, c, c, d, m);
                }
                let mut i: usize = 0;
                while i < n
                    invariant
                        ids@.len() == n,
                        old_ids.len() == n,
                        i <= n,
                        forall|j: int| 0 <= j < i ==> #[trigger] ids@[j] == (if old_ids[j] == b { a } else { old_ids[j] }),
                        forall|j: int| i <= j < n ==> #[trigger] ids@[j] == old_ids[j],
                    decreases n - i,
                {
                    if ids[i] == b {
                        ids.set(i, a);
                    }
                    i = i + 1;
                }
                proof {
                    assert(old_ids[ic as int] == a && old_ids[im as int] == b);
                    assert forall|x: Coords, y: Coords|
                        #![trigger ids@[g1.index_of(x)], ids@[g1.index_of(y)]]
                        g1.in_bounds(x) && g1.in_bounds(y) && ids@[g1.index_of(x)] == ids@[g1.index_of(y)] implies reachable(g1, x, y) by {
                        lemma_index_in_range(g1.width, g1.height, x);
                        lemma_index_in_range(g1.width, g1.height, y);
                        let ox = old_ids[g1.index_of(x)];
                        let oy = old_ids[g1.index_of(y)];
                        if ox == oy {
                        } else if ox == a {
                            assert(oy == b);
                            assert(old_ids[g1.index_of(x)] == old_ids[g1.index_of(c)]);
                            assert(old_ids[g1.index_of(m)] == old_ids[g1.index_of(y)]);
                            lemma_reachable_trans(g1, x, c, m);
                            lemma_reachable_trans(g1, x, m, y);
                        } else {
                            assert(ox == b && oy == a);
                            assert(old_ids[g1.index_of(y)] == old_ids[g1.index_of(c)]);
                            assert(old_ids[g1.index_of(m)] == old_ids[g1.index_of(x)]);
                            lemma_reachable_trans(g1, y, c, m);
                            lemma_reachable_trans(g1, y, m, x);
                            lemma_reachable_symmetric(g1, y, x);
                        }
                    }
                    assert(edges_joined(g1, edges@, k + 1)) by {
                        assert forall|j: int| 0 <= j < k + 1 implies match g1.neighbor((#[trigger] edges@[j]).0, edges@[j].1) {
                            Some(n) => reachable(g1, edges@[j].0, n),
                            None => true,
                        } by {
                            if j == k {
                                assert(edges@[j] == (c, d));
                            }
                        }
                    }
                    lemma_kruskal_carve_step(before, g1, old_ids, ids@, edges@, k as int, c, d, m, a, b, track);
                }
            } else {
                proof {
                    assert(ids@[before.index_of(c)] == ids@[before.index_of(m)]);
                    assert(reachable(before, c, m));
                    assert(edges_joined(before, edges@, k + 1)) by {
                        assert forall|j: int| 0 <= j < k + 1 implies match before.neighbor((#[trigger] edges@[j]).0, edges@[j].1) {
                            Some(n) => reachable(before, edges@[j].0, n),
                            None => true,
                        } by {
                            if j == k {
                                assert(edges@[j] == (c, d));
                            }
                        }
                    }
                    assert(edges_same_label(before, ids@, edges@, k + 1)) by {
                        assert forall|j: int| 0 <= j < k + 1 implies match before.neighbor((#[trigger] edges@[j]).0, edges@[j].1) {
                            Some(mm) => ids@[before.index_of(edges@[j].0)] == ids@[before.index_of(mm)],
                            None => true,
                        } by {
                            if j == k {
                                assert(edges@[j] == (c, d));
                            }
                        }
                    }
                }
            }
        }
        k = k + 1;
    }
    proof {
        let g = grid@;
        if g.width * g.height > 0 {
            assert(g.width > 0 && g.height > 0) by (nonlinear_arith)
                requires
                    g.width * g.height > 0,
            ;
            let origin: Coords = (0, 0);
            assert forall|c: Coords, d: Direction| g.in_bounds(c) implies match #[trigger] g.neighbor(c, d) {
                Some(m) => reachable(g, c, m),
                None => true,
            } by {
                lemma_neighbor_in_bounds(g, c, d);
                if let Some(m) = g.neighbor(c, d) {
                    let e = match d {
                        Direction::East => (c, Direction::East),
                        Direction::South => (c, Direction::South),
                        Direction::West => (m, Direction::East),
                        Direction::North => (m, Direction::South),
                    };
                    assert(listed.contains(e));
                    assert(edges@.contains(e));
                    let j = choose|j: int| 0 <= j < edges@.len() && edges@[j] == e;
                    assert(edges@[j] == e);
                    if d == Direction::West || d == Direction::North {
                        lemma_reachable_symmetric(g, m, c);
                    }
                }
            }
            let v = Set::new(|x: Coords| g.in_bounds(x) && reachable(g, origin, x));
            lemma_reachable_refl(g, origin);
            assert forall|c: Coords, d: Direction| #![trigger v.contains(c), g.neighbor(c, d)]
                v.contains(c) && g.in_bounds(c) implies match g.neighbor(c, d) {
                    Some(m) => v.contains(m),
                    None => true,
                } by {
                lemma_neighbor_in_bounds(g, c, d);
                if let Some(m) = g.neighbor(c, d) {
                    assert(reachable(g, c, m));
                    lemma_reachable_trans(g, origin, c, m);
                }
            }
            lemma_grid_connected(g, v, origin);
            assert forall|c: Coords| g.in_bounds(c) implies #[trigger] reachable(g, (0, 0), c) by {
                assert(v.contains(c));
            }
            if track {
                let ids_s = ids@;
                assert forall|c: Coords, d: Direction| g.in_bounds(c) implies match #[trigger] g.neighbor(c, d) {
                    Some(m) => ids_s[g.index_of(c)] == ids_s[g.index_of(m)],
                    None => true,
                } by {
                    lemma_neighbor_in_bounds(g, c, d);
                    if let Some(m) = g.neighbor(c, d) {
                        let e = match d {
                            Direction::East => (c, Direction::East),
                            Direction::South => (c, Direction::South),
                            Direction::West => (m, Direction::East),
                            Direction::North => (m, Direction::South),
                        };
                        assert(listed.contains(e));
                        assert(edges@.contains(e));
                        let j = choose|j: int| 0 <= j < edges@.len() && edges@[j] == e;
                        assert(edges@[j] == e);
                    }
                }
                lemma_index_in_range(g.width, g.height, origin);
                let same = Set::new(|x: Coords| g.in_bounds(x) && ids_s[g.index_of(x)] == ids_s[g.index_of(origin)]);
                assert forall|c: Coords, d: Direction| #![trigger same.contains(c), g.neighbor(c, d)]
                    same.contains(c) && g.in_bounds(c) implies match g.neighbor(c, d) {
                        Some(m) => same.contains(m),
                        None => true,
                    } by {
                    lemma_neighbor_in_bounds(g, c, d);
                }
                lemma_grid_connected(g, same, origin);
                assert(ids_s.to_set() =~= set![ids_s[g.index_of(origin)]]) by {
                    assert forall|val: usize| #[trigger] ids_s.to_set().contains(val) implies val == ids_s[g.index_of(origin)] by {
                        let i = choose|i: int| 0 <= i < ids_s.len() && ids_s[i] == val;
                        crate::maze::lemma_entries_row_major(g, i);
                        let c = crate::maze::entries(g)[i].0;
                        assert(same.contains(c));
                    }
                    assert(ids_s.contains(ids_s[g.index_of(origin)]));
                }
                assert(set![ids_s[g.index_of(origin)]].len() == 1);
            }
        }
    }
}

} // verus!

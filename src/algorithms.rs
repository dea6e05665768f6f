//! Maze generation algorithms.

pub mod aldous_broder;
mod recursive_backtracking;
mod binary_tree;
mod sidewinder;
mod recursive_division;
mod growing_tree;
mod hunt_and_kill;
mod kruskal;
mod prim;
mod eller;

use vstd::prelude::*;
use vstd::set_lib::{lemma_int_range, set_int_range};
use crate::cell::{Direction, bit_of};
use crate::grid::{lemma_open_sides_blank, lemma_open_sides_update, open_sides, Coords, Grid, GridView, lemma_carve_wf, lemma_index_in_range, lemma_neighbor_in_bounds};
use crate::validate::{closed_under_passages, fully_connected, reachable};
use rand::rngs::StdRng;
use recursive_backtracking::recursive_backtracking;
use binary_tree::binary_tree;
use sidewinder::sidewinder;
use recursive_division::{divide, in_chamber};
use growing_tree::growing_tree;
use hunt_and_kill::hunt_and_kill;
use kruskal::kruskal;
use prim::prim;
use eller::eller;

pub use binary_tree::Bias;
pub use growing_tree::Method;

verus! {

/// The positions of the cells that no passage has reached yet.
pub open spec fn unvisited(g: GridView) -> Set<int> {
    Set::new(|i: int| 0 <= i < g.cells.len() && g.cells[i].bits == 0)
}

/// Every passage open in `a` is open in `b`, on a grid of the same size.
pub open spec fn grows_into(a: GridView, b: GridView) -> bool {
    &&& a.width == b.width
    &&& a.height == b.height
    &&& a.cells.len() == b.cells.len()
    &&& forall|c: Coords, d: Direction| a.in_bounds(c) && #[trigger] a.carved(c, d) ==> b.carved(c, d)
    &&& unvisited(b).subset_of(unvisited(a))
}

pub(crate) proof fn lemma_grows_into_trans(a: GridView, b: GridView, c: GridView)
    requires
        grows_into(a, b),
        grows_into(b, c),
    ensures
        grows_into(a, c),
{
    assert forall|x: Coords, d: Direction| a.in_bounds(x) && #[trigger] a.carved(x, d) implies c.carved(x, d) by {
        assert(b.carved(x, d));
    }
}

/// Opening passages keeps every reachable cell reachable.
pub(crate) proof fn lemma_reachable_grows(a: GridView, b: GridView, from: Coords, to: Coords)
    requires
        grows_into(a, b),
        reachable(a, from, to),
    ensures
        reachable(b, from, to),
{
    assert forall|s: Set<Coords>| #[trigger] closed_under_passages(b, s) && s.contains(from) implies s.contains(to) by {
        assert(closed_under_passages(a, s)) by {
            assert forall|c: Coords, d: Direction| #![trigger s.contains(c), a.carved(c, d)]
                s.contains(c) && a.in_bounds(c) && a.carved(c, d) implies match a.neighbor(c, d) {
                    Some(n) => s.contains(n),
                    None => true,
                } by {
                assert(b.carved(c, d));
            }
        }
    }
}

/// No cell of the grid has been reached by a passage.
pub open spec fn is_blank(g: GridView) -> bool {
    forall|i: int| 0 <= i < g.cells.len() ==> (#[trigger] g.cells[i]).bits == 0
}

pub open spec fn visited_at(g: GridView, c: Coords) -> bool {
    g.cell(c).bits != 0
}

/// Every grid neighbor of `c` has been reached.
pub open spec fn neighbors_visited(g: GridView, c: Coords) -> bool {
    forall|d: Direction| match #[trigger] g.neighbor(c, d) {
        Some(n) => visited_at(g, n),
        None => true,
    }
}

/// Every visited cell can be reached from `from`.
pub open spec fn visited_reachable(g: GridView, from: Coords) -> bool {
    forall|c: Coords| g.in_bounds(c) && #[trigger] visited_at(g, c) ==> reachable(g, from, c)
}

pub(crate) proof fn lemma_visited_grows(a: GridView, b: GridView, c: Coords)
    requires
        grows_into(a, b),
        a.wf(),
        a.in_bounds(c),
        visited_at(a, c),
    ensures
        visited_at(b, c),
{
    lemma_index_in_range(a.width, a.height, c);
    if b.cell(c).bits == 0 {
        assert(unvisited(b).contains(a.index_of(c)));
    }
}

pub(crate) proof fn lemma_neighbors_visited_grows(a: GridView, b: GridView, c: Coords)
    requires
        grows_into(a, b),
        a.wf(),
        a.in_bounds(c),
        neighbors_visited(a, c),
    ensures
        neighbors_visited(b, c),
{
    assert forall|d: Direction| match #[trigger] b.neighbor(c, d) {
        Some(n) => visited_at(b, n),
        None => true,
    } by {
        lemma_neighbor_in_bounds(a, c, d);
        if let Some(n) = a.neighbor(c, d) {
            lemma_visited_grows(a, b, n);
        }
    }
}

pub(crate) proof fn lemma_visited_reachable_grows(a: GridView, b: GridView, from: Coords)
    requires
        grows_into(a, b),
        a.wf(),
        visited_reachable(a, from),
        forall|c: Coords| b.in_bounds(c) && #[trigger] visited_at(b, c) && !visited_at(a, c) ==> reachable(b, from, c),
    ensures
        visited_reachable(b, from),
{
    assert forall|c: Coords| b.in_bounds(c) && #[trigger] visited_at(b, c) implies reachable(b, from, c) by {
        if visited_at(a, c) {
            lemma_reachable_grows(a, b, from, c);
        }
    }
}

/// A set of cells that holds one cell and every grid neighbor of its members
/// holds the whole grid.
pub(crate) proof fn lemma_grid_connected(g: GridView, v: Set<Coords>, s: Coords)
    requires
        g.in_bounds(s),
        v.contains(s),
        forall|c: Coords, d: Direction| #![trigger v.contains(c), g.neighbor(c, d)]
            v.contains(c) && g.in_bounds(c) ==> match g.neighbor(c, d) {
                Some(n) => v.contains(n),
                None => true,
            },
    ensures
        forall|c: Coords| g.in_bounds(c) ==> #[trigger] v.contains(c),
{
    lemma_walk_west(g, v, s.0, s.1);
    lemma_walk_north(g, v, s.1);
    assert forall|c: Coords| g.in_bounds(c) implies #[trigger] v.contains(c) by {
        lemma_walk_south(g, v, c.1);
        lemma_walk_east(g, v, c.0, c.1);
    }
}

pub(crate) proof fn lemma_walk_west(g: GridView, v: Set<Coords>, x: usize, y: usize)
    requires
        g.in_bounds((x, y)),
        v.contains((x, y)),
        forall|c: Coords, d: Direction| #![trigger v.contains(c), g.neighbor(c, d)]
            v.contains(c) && g.in_bounds(c) ==> match g.neighbor(c, d) {
                Some(n) => v.contains(n),
                None => true,
            },
    ensures
        v.contains((0usize, y)),
    decreases x,
{
    if x > 0 {
        assert(g.neighbor((x, y), Direction::West) == Some(((x - 1) as usize, y)));
        lemma_walk_west(g, v, (x - 1) as usize, y);
    }
}

pub(crate) proof fn lemma_walk_north(g: GridView, v: Set<Coords>, y: usize)
    requires
        g.in_bounds((0usize, y)),
        v.contains((0usize, y)),
        forall|c: Coords, d: Direction| #![trigger v.contains(c), g.neighbor(c, d)]
            v.contains(c) && g.in_bounds(c) ==> match g.neighbor(c, d) {
                Some(n) => v.contains(n),
                None => true,
            },
    ensures
        v.contains((0usize, 0usize)),
    decreases y,
{
    if y > 0 {
        assert(g.neighbor((0usize, y), Direction::North) == Some((0usize, (y - 1) as usize)));
        lemma_walk_north(g, v, (y - 1) as usize);
    }
}

pub(crate) proof fn lemma_walk_south(g: GridView, v: Set<Coords>, y: usize)
    requires
        g.width > 0,
        y < g.height,
        v.contains((0usize, 0usize)),
        forall|c: Coords, d: Direction| #![trigger v.contains(c), g.neighbor(c, d)]
            v.contains(c) && g.in_bounds(c) ==> match g.neighbor(c, d) {
                Some(n) => v.contains(n),
                None => true,
            },
    ensures
        v.contains((0usize, y)),
    decreases y,
{
    if y > 0 {
        let py = (y - 1) as usize;
        lemma_walk_south(g, v, py);
        assert(g.neighbor((0usize, py), Direction::South) == Some((0usize, y)));
    }
}

pub(crate) proof fn lemma_walk_east(g: GridView, v: Set<Coords>, x: usize, y: usize)
    requires
        x < g.width,
        y < g.height,
        v.contains((0usize, y)),
        forall|c: Coords, d: Direction| #![trigger v.contains(c), g.neighbor(c, d)]
            v.contains(c) && g.in_bounds(c) ==> match g.neighbor(c, d) {
                Some(n) => v.contains(n),
                None => true,
            },
    ensures
        v.contains((x, y)),
    decreases x,
{
    if x > 0 {
        let px = (x - 1) as usize;
        lemma_walk_east(g, v, px, y);
        assert(g.neighbor((px, y), Direction::East) == Some((x, y)));
    }
}

pub(crate) proof fn lemma_flag_set(b: u8, f: u8)
    by (bit_vector)
    requires
        f == 1 || f == 2 || f == 4 || f == 8,
    ensures
        b | f != 0,
        b & f != 0 ==> (b | f) & f != 0,
{
}

/// Carving opens passages only, and leaves both cells it touches visited.
pub(crate) proof fn lemma_carve_grows(g: GridView, c: Coords, d: Direction)
    requires
        g.wf(),
        g.in_bounds(c),
    ensures
        grows_into(g, g.carve(c, d)),
        match g.neighbor(c, d) {
            Some(n) => visited_at(g.carve(c, d), n) && visited_at(g.carve(c, d), c) && g.carve(c, d).carved(c, d) && forall|x: Coords|
                g.in_bounds(x) && x != c && x != n ==> #[trigger] g.carve(c, d).cell(x) == g.cell(x),
            None => true,
        },
{
    lemma_carve_wf(g, c, d);
    let g2 = g.carve(c, d);
    if let Some(n) = g.neighbor(c, d) {
        let ic = g.index_of(c);
        let inn = g.index_of(n);
        lemma_flag_set(g.cells[ic].bits, bit_of(d));
        lemma_flag_set(g.cells[inn].bits, bit_of(crate::cell::opposite_of(d)));
        assert forall|x: Coords, e: Direction| g.in_bounds(x) && #[trigger] g.carved(x, e) implies g2.carved(x, e) by {
            crate::grid::lemma_index_in_range(g.width, g.height, x);
            g.cell(c).lemma_with(d, e);
            g.cell(n).lemma_with(crate::cell::opposite_of(d), e);
        }
        assert forall|i: int| #[trigger] unvisited(g2).contains(i) implies unvisited(g).contains(i) by {
            if i == ic || i == inn {
            }
        }
        g.cell(c).lemma_with(d, d);
        assert forall|x: Coords| g.in_bounds(x) && x != c && x != n implies #[trigger] g2.cell(x) == g.cell(x) by {
            lemma_index_in_range(g.width, g.height, x);
            if g.index_of(x) == ic {
                crate::grid::lemma_index_injective(g.width, x, c);
            }
            if g.index_of(x) == inn {
                crate::grid::lemma_index_injective(g.width, x, n);
            }
        }
    } else {
        assert(g2 == g);
    }
}

/// Carves from `coords` toward `d` when that stays on the grid; opening passages
/// only.
/// Carving from a cell into an unvisited neighbor opens two sides, and leaves
/// exactly those two cells visited that were not before.
pub(crate) proof fn lemma_carve_counts(g: GridView, c: Coords, d: Direction, n: Coords)
    requires
        g.wf(),
        g.symmetric(),
        g.in_bounds(c),
        g.neighbor(c, d) == Some(n),
        !visited_at(g, n),
    ensures
        open_sides(g.carve(c, d).cells) == open_sides(g.cells) + 2,
        unvisited(g.carve(c, d)) == unvisited(g).remove(g.index_of(n)).remove(g.index_of(c)),
{
    lemma_carve_wf(g, c, d);
    lemma_carve_grows(g, c, d);
    let g2 = g.carve(c, d);
    let ic = g.index_of(c);
    let inn = g.index_of(n);
    let od = crate::cell::opposite_of(d);
    assert(!g.carved(c, d)) by {
        assert(g.carved(c, d) == g.carved(n, od));
        assert(0u8 & 1 == 0 && 0u8 & 2 == 0 && 0u8 & 4 == 0 && 0u8 & 8 == 0) by (bit_vector);
    }
    assert(!g.cell(n).has(od)) by {
        assert(0u8 & 1 == 0 && 0u8 & 2 == 0 && 0u8 & 4 == 0 && 0u8 & 8 == 0) by (bit_vector);
    }
    g.cell(c).lemma_with_passages(d);
    g.cell(n).lemma_with_passages(od);
    let s1 = g.cells.update(ic, g.cell(c).with(d));
    lemma_open_sides_update(g.cells, ic, g.cell(c).with(d));
    lemma_open_sides_update(s1, inn, g.cell(n).with(od));
    assert(s1[inn] == g.cell(n));
    assert forall|i: int| #[trigger] unvisited(g2).contains(i) == unvisited(g).remove(inn).remove(ic).contains(i) by {
        if i != ic && i != inn && 0 <= i < g.cells.len() {
            assert(g2.cells[i] == g.cells[i]);
        }
    }
    assert(unvisited(g2) =~= unvisited(g).remove(inn).remove(ic));
}

/// Since `g0`, every newly visited cell other than `start` has opened exactly
/// one passage (two sides): the passages opened form a tree.
pub open spec fn tree_count(g0: GridView, g: GridView, start: Coords) -> bool {
    &&& unvisited(g).finite()
    &&& open_sides(g.cells) == open_sides(g0.cells) + 2 * (unvisited(g0).len() - unvisited(g).len() - (if !visited_at(
        g0,
        start,
    ) && visited_at(g, start) {
        1int
    } else {
        0
    }))
}

/// A carve through a closed wall that visits exactly one new cell, or that is
/// the very first carve, out of `start`, keeps the tree count.
pub(crate) proof fn lemma_tree_carve(g0: GridView, g: GridView, c: Coords, d: Direction, n: Coords, start: Coords)
    requires
        g.wf(),
        g.symmetric(),
        g.in_bounds(c),
        g.in_bounds(start),
        g.neighbor(c, d) == Some(n),
        tree_count(g0, g, start),
        (!visited_at(g, n) && visited_at(g, c)) || (visited_at(g, n) && !visited_at(g, c) && c != start) || (
        !visited_at(g, n) && c == start && g == g0),
        visited_at(g, start) || c == start,
    ensures
        tree_count(g0, g.carve(c, d), start),
        visited_at(g.carve(c, d), start),
{
    lemma_carve_wf(g, c, d);
    lemma_carve_grows(g, c, d);
    lemma_index_in_range(g.width, g.height, c);
    lemma_index_in_range(g.width, g.height, n);
    let g2 = g.carve(c, d);
    let ic = g.index_of(c);
    let inn = g.index_of(n);
    let od = crate::cell::opposite_of(d);
    lemma_neighbor_in_bounds(g, c, d);
    assert(0u8 & 1 == 0 && 0u8 & 2 == 0 && 0u8 & 4 == 0 && 0u8 & 8 == 0) by (bit_vector);
    assert(g.carved(c, d) == g.carved(n, od));
    assert(!g.carved(c, d));
    assert(!g.cell(n).has(od));
    g.cell(c).lemma_with_passages(d);
    g.cell(n).lemma_with_passages(od);
    let s1 = g.cells.update(ic, g.cell(c).with(d));
    lemma_open_sides_update(g.cells, ic, g.cell(c).with(d));
    lemma_open_sides_update(s1, inn, g.cell(n).with(od));
    assert(s1[inn] == g.cell(n));
    assert forall|i: int| #[trigger] unvisited(g2).contains(i) == unvisited(g).remove(inn).remove(ic).contains(i) by {
        if i != ic && i != inn && 0 <= i < g.cells.len() {
            assert(g2.cells[i] == g.cells[i]);
        }
    }
    assert(unvisited(g2) =~= unvisited(g).remove(inn).remove(ic));
    assert(unvisited(g).contains(inn) == !visited_at(g, n));
    assert(unvisited(g).contains(ic) == !visited_at(g, c));
    if start != c && start != n {
        assert(g2.cell(start) == g.cell(start));
    }
    let u = unvisited(g);
    let u1 = u.remove(inn);
    assert(ic != inn);
    if u.contains(inn) {
        assert(u1.len() == u.len() - 1);
    } else {
        assert(u1 =~= u);
    }
    if u1.contains(ic) {
        assert(u1.remove(ic).len() == u1.len() - 1);
    } else {
        assert(u1.remove(ic) =~= u1);
    }
    assert(visited_at(g2, c) && visited_at(g2, n));
}

/// A tree count over a blank grid whose cells are all visited leaves
/// `w * h - 1` passages.
pub(crate) proof fn lemma_tree_done(g0: GridView, g: GridView, start: Coords)
    requires
        g0.wf(),
        is_blank(g0),
        g.wf(),
        g.width == g0.width,
        g.height == g0.height,
        g0.in_bounds(start),
        tree_count(g0, g, start),
        forall|c: Coords| g.in_bounds(c) ==> #[trigger] visited_at(g, c),
    ensures
        open_sides(g.cells) == 2 * (g.width * g.height - 1),
{
    let n = g0.cells.len();
    lemma_index_in_range(g0.width, g0.height, start);
    assert(visited_at(g, start));
    assert(!visited_at(g0, start));
    assert(unvisited(g) =~= Set::<int>::empty()) by {
        assert forall|i: int| !unvisited(g).contains(i) by {
            if 0 <= i < g.cells.len() && g.cells[i].bits == 0 {
                crate::maze::lemma_entries_row_major(g, i);
                let c = crate::maze::entries(g)[i].0;
                assert(visited_at(g, c));
            }
        }
    }
    assert(unvisited(g0) =~= set_int_range(0, n as int)) by {
        assert forall|i: int| unvisited(g0).contains(i) == set_int_range(0, n as int).contains(i) by {}
    }
    lemma_int_range(0, n as int);
    lemma_open_sides_blank(g0.cells);
}

pub(crate) fn carve_if_possible(grid: &mut Grid, coords: Coords, d: Direction)
    requires
        old(grid).wf(),
        old(grid)@.in_bounds(coords),
    ensures
        final(grid).wf(),
        grows_into(old(grid)@, final(grid)@),
        final(grid)@ == old(grid)@.carve(coords, d),
{
    proof {
        lemma_carve_grows(grid@, coords, d);
    }
    let _ = grid.carve_passage(coords, d);
}

/// `c` has been reached, or is the cell the walk started from.
pub open spec fn reached(g: GridView, start: Coords, c: Coords) -> bool {
    visited_at(g, c) || c == start
}

/// A maze generation algorithm, chosen once per build.
#[derive(Clone, Copy, Debug, PartialEq, Eq, Structural)]
pub enum Algorithm {
    RecursiveBacktracking,
    BinaryTree(Bias),
    Eller,
    GrowingTree(Method),
    HuntAndKill,
    Kruskal,
    Prim,
    RecursiveDivision,
    Sidewinder,
}

pub open spec fn algorithm_name(a: Algorithm) -> Seq<char> {
    match a {
        Algorithm::RecursiveBacktracking => "RecursiveBacktracking"@,
        Algorithm::BinaryTree(_) => "BinaryTree"@,
        Algorithm::Eller => "Eller"@,
        Algorithm::GrowingTree(_) => "GrowingTree"@,
        Algorithm::HuntAndKill => "HuntAndKill"@,
        Algorithm::Kruskal => "Kruskal"@,
        Algorithm::Prim => "Prim"@,
        Algorithm::RecursiveDivision => "RecursiveDivision"@,
        Algorithm::Sidewinder => "Sidewinder"@,
    }
}

impl Algorithm {
    /// Whether the algorithm starts from a cell that the caller may choose.
    pub open spec fn supports_start(self) -> bool {
        self is RecursiveBacktracking || self is GrowingTree || self is HuntAndKill || self is Prim
    }

    pub fn has_start_coords(&self) -> (r: bool)
        ensures
            r == self.supports_start(),
    {
        match self {
            Algorithm::RecursiveBacktracking => true,
            Algorithm::GrowingTree(_) => true,
            Algorithm::HuntAndKill => true,
            Algorithm::Prim => true,
            _ => false,
        }
    }

    pub fn name(&self) -> (r: &'static str)
        ensures
            r@ == algorithm_name(*self),
    {
        match self {
            Algorithm::RecursiveBacktracking => "RecursiveBacktracking",
            Algorithm::BinaryTree(_) => "BinaryTree",
            Algorithm::Eller => "Eller",
            Algorithm::GrowingTree(_) => "GrowingTree",
            Algorithm::HuntAndKill => "HuntAndKill",
            Algorithm::Kruskal => "Kruskal",
            Algorithm::Prim => "Prim",
            Algorithm::RecursiveDivision => "RecursiveDivision",
            Algorithm::Sidewinder => "Sidewinder",
        }
    }

    /// Carves a maze into `grid`; `start_coords` (default `(0, 0)`) is where the
    /// algorithms that take one begin.
    pub fn generate(&self, grid: &mut Grid, start_coords: Option<Coords>, rng: &mut StdRng)
        requires
            old(grid).wf(),
            start_coords matches Some(c) ==> old(grid)@.in_bounds(c),
        ensures
            final(grid).wf(),
            grows_into(old(grid)@, final(grid)@),
            self is RecursiveBacktracking && is_blank(old(grid)@) && old(grid)@.width * old(grid)@.height > 0
                ==> fully_connected(final(grid)@),
            self is RecursiveBacktracking && is_blank(old(grid)@) && old(grid)@.width * old(grid)@.height >= 2
                ==> open_sides(final(grid)@.cells) == 2 * (old(grid)@.width * old(grid)@.height - 1),
            self is GrowingTree && is_blank(old(grid)@) && old(grid)@.width * old(grid)@.height > 0
                ==> fully_connected(final(grid)@),
            self is HuntAndKill && is_blank(old(grid)@) && old(grid)@.width * old(grid)@.height > 0
                ==> fully_connected(final(grid)@),
            self is Prim && is_blank(old(grid)@) && old(grid)@.width * old(grid)@.height > 0
                ==> fully_connected(final(grid)@),
            self is RecursiveDivision && old(grid)@.width * old(grid)@.height > 0 ==> fully_connected(final(grid)@),
            self is BinaryTree && old(grid)@.width * old(grid)@.height > 0 ==> fully_connected(final(grid)@),
            self is Sidewinder && old(grid)@.width * old(grid)@.height > 0 ==> fully_connected(final(grid)@),
            self is Kruskal && old(grid)@.width * old(grid)@.height > 0 ==> fully_connected(final(grid)@),
            self is Kruskal && is_blank(old(grid)@) && old(grid)@.width * old(grid)@.height > 0
                ==> open_sides(final(grid)@.cells) == 2 * (old(grid)@.width * old(grid)@.height - 1),
            (self is GrowingTree || self is HuntAndKill || self is Prim || self is BinaryTree || self is Sidewinder
                || self is RecursiveDivision)
                && is_blank(old(grid)@) && old(grid)@.width
                * old(grid)@.height >= 2 ==> open_sides(final(grid)@.cells) == 2 * (old(grid)@.width * old(grid)@.height
                - 1),
            self is Eller && old(grid)@.width * old(grid)@.height > 0 ==> fully_connected(final(grid)@),
    {
        let ghost g0 = grid@;
        match self {
            Algorithm::RecursiveBacktracking => {
                let start = match start_coords {
                    Some(c) => c,
                    None => (0, 0),
                };
                if grid.width() > 0 && grid.height() > 0 && start.0 < grid.width() && start.1 < grid.height() {
                    recursive_backtracking(grid, start, rng);
                } else {
                    proof {
                        assert(unvisited(g0) =~= unvisited(grid@));
                        assert(g0.width == 0 || g0.height == 0 ==> g0.width * g0.height == 0) by (nonlinear_arith);
                    }
                }
            },
            Algorithm::BinaryTree(bias) => binary_tree(grid, *bias, rng),
            Algorithm::GrowingTree(method) => {
                let start = match start_coords {
                    Some(c) => c,
                    None => (0, 0),
                };
                if grid.width() > 0 && grid.height() > 0 && start.0 < grid.width() && start.1 < grid.height() {
                    growing_tree(grid, start, *method, rng);
                } else {
                    proof {
                        assert(unvisited(g0) =~= unvisited(grid@));
                        assert(g0.width == 0 || g0.height == 0 ==> g0.width * g0.height == 0) by (nonlinear_arith);
                    }
                }
            },
            Algorithm::HuntAndKill => {
                let start = match start_coords {
                    Some(c) => c,
                    None => (0, 0),
                };
                if grid.width() > 0 && grid.height() > 0 && start.0 < grid.width() && start.1 < grid.height() {
                    hunt_and_kill(grid, start, rng);
                } else {
                    proof {
                        assert(unvisited(g0) =~= unvisited(grid@));
                        assert(g0.width == 0 || g0.height == 0 ==> g0.width * g0.height == 0) by (nonlinear_arith);
                    }
                }
            },
            Algorithm::RecursiveDivision => {
                if grid.width() > 0 && grid.height() > 0 {
                    let w = grid.width();
                    let h = grid.height();
                    proof {
                        if is_blank(g0) {
                            lemma_open_sides_blank(g0.cells);
                            assert forall|c: Coords, d: Direction| in_chamber(c, 0, 0, w, h) && #[trigger] g0.carved(c, d)
                                implies match g0.neighbor(c, d) {
                                    Some(n) => !in_chamber(n, 0, 0, w, h),
                                    None => true,
                                } by {
                                lemma_index_in_range(g0.width, g0.height, c);
                                assert(0u8 & 1 == 0 && 0u8 & 2 == 0 && 0u8 & 4 == 0 && 0u8 & 8 == 0) by (bit_vector);
                            }
                        }
                    }
                    divide(grid, 0, 0, w, h, rng);
                    proof {
                        assert forall|c: Coords| grid@.in_bounds(c) implies #[trigger] reachable(grid@, (0, 0), c) by {
                            assert(in_chamber(c, 0, 0, w, h));
                        }
                    }
                } else {
                    proof {
                        assert(unvisited(g0) =~= unvisited(grid@));
                        assert(g0.width * g0.height == 0) by (nonlinear_arith)
                            requires
                                g0.width == 0 || g0.height == 0,
                        ;
                    }
                }
            },
            Algorithm::Sidewinder => sidewinder(grid, rng),
            Algorithm::Kruskal => kruskal(grid, rng),
            Algorithm::Eller => eller(grid, rng),
            Algorithm::Prim => {
                let start = match start_coords {
                    Some(c) => c,
                    None => (0, 0),
                };
                if grid.width() > 0 && grid.height() > 0 && start.0 < grid.width() && start.1 < grid.height() {
                    prim(grid, start, rng);
                } else {
                    proof {
                        assert(unvisited(g0) =~= unvisited(grid@));
                        assert(g0.width == 0 || g0.height == 0 ==> g0.width * g0.height == 0) by (nonlinear_arith);
                    }
                }
            },
        }
    }
}

} // verus!

//! Shortest paths through a maze's open passages.

use vstd::prelude::*;
use pathfinding::prelude::astar;
use crate::cell::Direction;
use crate::grid::{Coords, Grid, GridView};
use crate::maze::{ends_of, OrthogonalMaze};
use crate::validate::{closed_under_passages, fully_connected, lemma_reachable_symmetric, lemma_reachable_trans, reachable};

verus! {

/// `b` is one step from `a` through an open passage.
pub open spec fn is_step(g: GridView, a: Coords, b: Coords) -> bool {
    exists|d: Direction| g.in_bounds(a) && #[trigger] g.neighbor(a, d) == Some(b) && g.carved(a, d)
}

/// `path` walks through open passages from `start` to `goal`.
pub open spec fn is_walk(g: GridView, path: Seq<Coords>, start: Coords, goal: Coords) -> bool {
    &&& path.len() > 0
    &&& path[0] == start
    &&& path.last() == goal
    &&& forall|i: int| 0 <= i < path.len() - 1 ==> is_step(g, #[trigger] path[i], path[i + 1])
}

/// The cost of walking `path`: the sum of the costs of the cells entered after
/// the first.
pub open spec fn path_cost(costs: Seq<u32>, g: GridView, path: Seq<Coords>) -> int
    decreases path.len(),
{
    if path.len() <= 1 {
        0
    } else {
        path_cost(costs, g, path.drop_last()) + costs[g.index_of(path.last())]
    }
}

/// `goal` can be reached from `start` through open passages.
#[verifier::opaque]
pub open spec fn walk_exists(g: GridView, start: Coords, goal: Coords) -> bool {
    exists|p: Seq<Coords>| #[trigger] is_walk(g, p, start, goal)
}

/// Whatever is reachable through open passages has a walk leading to it.
pub proof fn lemma_reachable_walk(g: GridView, s: Coords, t: Coords)
    requires
        g.in_bounds(s),
        reachable(g, s, t),
    ensures
        walk_exists(g, s, t),
{
    reveal(walk_exists);
    let set = Set::new(|x: Coords| walk_exists(g, s, x));
    assert(is_walk(g, seq![s], s, s));
    assert(set.contains(s));
    assert forall|c: Coords, d: Direction| #![trigger set.contains(c), g.carved(c, d)]
        set.contains(c) && g.in_bounds(c) && g.carved(c, d) implies match g.neighbor(c, d) {
            Some(n) => set.contains(n),
            None => true,
        } by {
        if let Some(n) = g.neighbor(c, d) {
            let p = choose|p: Seq<Coords>| #[trigger] is_walk(g, p, s, c);
            let q = p.push(n);
            assert(is_step(g, c, n));
            assert forall|i: int| 0 <= i < q.len() - 1 implies is_step(g, #[trigger] q[i], q[i + 1]) by {
                if i < p.len() - 1 {
                    assert(q[i] == p[i] && q[i + 1] == p[i + 1]);
                } else {
                    assert(q[i] == c && q[i + 1] == n);
                }
            }
            assert(is_walk(g, q, s, n));
        }
    }
    assert(closed_under_passages(g, set));
}

/// In a fully connected symmetric grid, a walk joins any two cells.
pub proof fn lemma_connected_walk(g: GridView, s: Coords, t: Coords)
    requires
        g.wf(),
        g.symmetric(),
        fully_connected(g),
        g.in_bounds(s),
        g.in_bounds(t),
    ensures
        walk_exists(g, s, t),
{
    let origin: Coords = (0, 0);
    assert(reachable(g, origin, s));
    assert(reachable(g, origin, t));
    lemma_reachable_symmetric(g, origin, s);
    lemma_reachable_trans(g, s, origin, t);
    lemma_reachable_walk(g, s, t);
}

/// `found` is a cheapest walk from `start` to `goal`, with its cost.
#[verifier::opaque]
pub open spec fn cheapest(costs: Seq<u32>, g: GridView, start: Coords, goal: Coords, found: (Seq<Coords>, u32)) -> bool {
    &&& is_walk(g, found.0, start, goal)
    &&& found.1 == path_cost(costs, g, found.0)
    &&& forall|p: Seq<Coords>| #[trigger] is_walk(g, p, start, goal) ==> path_cost(costs, g, p) >= found.1
}

/// Every cell costs at least one to enter, and a path through every cell, plus
/// its distance estimate, still fits in a `u32`.
pub open spec fn costs_fit(costs: Seq<u32>) -> bool {
    forall|i: int| 0 <= i < costs.len() ==> 1 <= #[trigger] costs[i] && 2 * costs[i] * costs.len() + 2 * costs.len() <= u32::MAX
}

/// Returns the cells one step from `c` through an open passage, each with the
/// cost of entering it.
pub fn successors(grid: &Grid, costs: &Vec<u32>, c: Coords) -> (r: Vec<(Coords, u32)>)
    requires
        grid.wf(),
        grid@.in_bounds(c),
        costs@.len() == grid@.cells.len(),
    ensures
        forall|i: int| 0 <= i < r@.len() ==> is_step(grid@, c, #[trigger] r@[i].0) && grid@.in_bounds(r@[i].0)
            && r@[i].1 == costs@[grid@.index_of(r@[i].0)],
        forall|d: Direction| #[trigger] grid@.carved(c, d) ==> exists|i: int|
            0 <= i < r@.len() && grid@.neighbor(c, d) == Some(r@[i].0),
{
    let dirs = [Direction::North, Direction::South, Direction::West, Direction::East];
    let mut out: Vec<(Coords, u32)> = Vec::new();
    let mut k: usize = 0;
    while k < 4
        invariant
            grid.wf(),
            grid@.in_bounds(c),
            costs@.len() == grid@.cells.len(),
            dirs@ == seq![Direction::North, Direction::South, Direction::West, Direction::East],
            k <= 4,
            forall|i: int| 0 <= i < out@.len() ==> is_step(grid@, c, #[trigger] out@[i].0) && grid@.in_bounds(
                out@[i].0,
            ) && out@[i].1 == costs@[grid@.index_of(out@[i].0)],
            forall|j: int| 0 <= j < k ==> #[trigger] grid@.carved(c, dirs@[j]) ==> exists|i: int|
                0 <= i < out@.len() && grid@.neighbor(c, dirs@[j]) == Some(out@[i].0),
        decreases 4 - k,
    {
        let d = dirs[k];
        if grid.is_carved(c, d) {
            if let Ok(n) = grid.get_next_cell_coords(c, d) {
                proof {
                    crate::grid::lemma_neighbor_in_bounds(grid@, c, d);
                }
                let i = grid.get_index(n);
                let ghost before = out@;
                out.push((n, costs[i]));
                proof {
                    assert(is_step(grid@, c, n));
                    assert forall|j: int| 0 <= j < k + 1 implies #[trigger] grid@.carved(c, dirs@[j]) ==> exists|i: int|
                        0 <= i < out@.len() && grid@.neighbor(c, dirs@[j]) == Some(out@[i].0) by {
                        if j < k && grid@.carved(c, dirs@[j]) {
                            let i = choose|i: int| 0 <= i < before.len() && grid@.neighbor(c, dirs@[j]) == Some(before[i].0);
                            assert(out@[i] == before[i]);
                        } else if j == k {
                            assert(out@[out@.len() - 1].0 == n);
                        }
                    }
                }
            }
        }
        k = k + 1;
    }
    proof {
        assert forall|d: Direction| #[trigger] grid@.carved(c, d) implies exists|i: int|
            0 <= i < out@.len() && grid@.neighbor(c, d) == Some(out@[i].0) by {
            let j: int = match d {
                Direction::North => 0,
                Direction::South => 1,
                Direction::West => 2,
                Direction::East => 3,
            };
            assert(dirs@[j] == d);
        }
    }
    out
}

/// Returns the grid distance `|ax - bx| + |ay - by|`, saturated at `u32::MAX`.
pub fn distance(a: Coords, b: Coords) -> (r: u32)
    ensures
        r == (if abs_diff(a.0 as int, b.0 as int) + abs_diff(a.1 as int, b.1 as int) <= u32::MAX {
            abs_diff(a.0 as int, b.0 as int) + abs_diff(a.1 as int, b.1 as int)
        } else {
            u32::MAX as int
        }),
{
    let dx = if a.0 >= b.0 { a.0 - b.0 } else { b.0 - a.0 };
    let dy = if a.1 >= b.1 { a.1 - b.1 } else { b.1 - a.1 };
    if dx <= u32::MAX as usize && dy <= u32::MAX as usize - dx {
        (dx + dy) as u32
    } else {
        u32::MAX
    }
}

pub open spec fn abs_diff(a: int, b: int) -> int {
    if a >= b { a - b } else { b - a }
}

/// The grid distance between two cells.
pub open spec fn manhattan(a: Coords, b: Coords) -> int {
    abs_diff(a.0 as int, b.0 as int) + abs_diff(a.1 as int, b.1 as int)
}

/// No walk through open passages takes fewer steps than the grid distance
/// between its ends.
pub proof fn lemma_walk_at_least_distance(g: GridView, path: Seq<Coords>, start: Coords, goal: Coords)
    requires
        g.wf(),
        is_walk(g, path, start, goal),
    ensures
        path.len() - 1 >= manhattan(start, goal),
{
    lemma_walk_prefix_distance(g, path, (path.len() - 1) as nat);
}

proof fn lemma_walk_prefix_distance(g: GridView, path: Seq<Coords>, i: nat)
    requires
        g.wf(),
        path.len() > 0,
        i < path.len(),
        forall|j: int| 0 <= j < path.len() - 1 ==> is_step(g, #[trigger] path[j], path[j + 1]),
    ensures
        i >= manhattan(path[0], path[i as int]),
    decreases i,
{
    if i > 0 {
        lemma_walk_prefix_distance(g, path, (i - 1) as nat);
        assert(is_step(g, path[i - 1], path[i as int]));
        lemma_step_distance(g, path[0], path[i - 1], path[i as int]);
    }
}

proof fn lemma_step_distance(g: GridView, p: Coords, a: Coords, b: Coords)
    requires
        g.wf(),
        is_step(g, a, b),
    ensures
        manhattan(p, b) <= manhattan(p, a) + 1,
{
    let d = choose|d: Direction| g.in_bounds(a) && #[trigger] g.neighbor(a, d) == Some(b) && g.carved(a, d);
    match d {
        Direction::North => {
            assert(b.0 == a.0 && b.1 + 1 == a.1);
        },
        Direction::South => {
            assert(b.0 == a.0 && b.1 == a.1 + 1);
        },
        Direction::West => {
            assert(b.1 == a.1 && b.0 + 1 == a.0);
        },
        Direction::East => {
            assert(b.1 == a.1 && b.0 == a.0 + 1);
        },
    }
}

/// Whether `c` is the goal of a search.
pub fn is_goal(c: Coords, goal: Coords) -> (r: bool)
    ensures
        r == (c == goal),
{
    c.0 == goal.0 && c.1 == goal.1
}

/// Relies on pathfinding's `astar`: with non-negative step costs and a heuristic
/// that never overestimates (here the grid distance, while every entered cell
/// costs at least one), it returns a shortest path from `start` to a node
/// accepted as the goal, each step to a node that the successor function
/// produced, together with its total cost; `None` when no path exists.
#[verifier::external_body]
fn astar_search(grid: &Grid, costs: &Vec<u32>, start: Coords, goal: Coords) -> (r: Option<(Vec<Coords>, u32)>)
    requires
        grid.wf(),
        grid@.in_bounds(start),
        grid@.in_bounds(goal),
        costs@.len() == grid@.cells.len(),
        costs_fit(costs@),
    ensures
        r is None <==> !walk_exists(grid@, start, goal),
        r matches Some(found) ==> cheapest(costs@, grid@, start, goal, (found.0@, found.1)),
{
    astar(&start, |p| successors(grid, costs, *p), |p| distance(*p, goal), |p| is_goal(*p, goal))
}

/// Returns a cheapest path from `start` to `goal` through open passages, with its
/// cost, where entering a cell costs that cell's entry in `costs`; `None` when
/// `goal` cannot be reached.
pub fn find_path(maze: &OrthogonalMaze, start: Coords, goal: Coords, costs: &Vec<u32>) -> (r: Option<(Vec<Coords>, u32)>)
    requires
        maze.wf(),
        maze@.in_bounds(start),
        maze@.in_bounds(goal),
        costs@.len() == maze@.cells.len(),
        costs_fit(costs@),
    ensures
        r is None <==> !walk_exists(maze@, start, goal),
        r matches Some(found) ==> cheapest(costs@, maze@, start, goal, (found.0@, found.1)),
        r matches Some(found) ==> found.1 >= manhattan(start, goal),
{
    let r = astar_search(maze.grid(), costs, start, goal);
    proof {
        if r is Some {
            let found = r->0;
            reveal(cheapest);
            lemma_walk_at_least_distance(maze@, found.0@, start, goal);
            lemma_cost_at_least_steps(costs@, maze@, found.0@, start, goal);
        }
    }
    r
}

/// With every cell costing at least one, a walk costs at least its number of steps.
proof fn lemma_cost_at_least_steps(costs: Seq<u32>, g: GridView, path: Seq<Coords>, start: Coords, goal: Coords)
    requires
        g.wf(),
        g.in_bounds(goal),
        costs.len() == g.cells.len(),
        costs_fit(costs),
        is_walk(g, path, start, goal),
    ensures
        path_cost(costs, g, path) >= path.len() - 1,
    decreases path.len(),
{
    if path.len() > 1 {
        let prev = path.drop_last();
        let a = path[path.len() - 2];
        assert(is_step(g, a, path.last()));
        let d = choose|d: Direction| g.in_bounds(a) && #[trigger] g.neighbor(a, d) == Some(path.last()) && g.carved(a, d);
        crate::grid::lemma_neighbor_in_bounds(g, a, d);
        crate::grid::lemma_index_in_range(g.width, g.height, path.last());
        assert(costs[g.index_of(path.last())] >= 1);
        assert forall|i: int| 0 <= i < prev.len() - 1 implies is_step(g, #[trigger] prev[i], prev[i + 1]) by {
            assert(prev[i] == path[i] && prev[i + 1] == path[i + 1]);
        }
        assert(is_walk(g, prev, start, a));
        lemma_cost_at_least_steps(costs, g, prev, start, a);
    }
}

/// The paths from one start cell to the maze's dead ends, keyed by
/// `(start, end)`.
pub struct MazeEndsPaths {
    pub paths: Vec<((Coords, Coords), (Vec<Coords>, u32))>,
}

impl MazeEndsPaths {
    /// Whether `path_coord` lies on the stored path from `start` to `goal`.
    pub fn contains_coord_path_end(&self, start: Coords, goal: Coords, path_coord: Coords) -> (r: bool)
        ensures
            r == exists|i: int|
                0 <= i < self.paths@.len() && (#[trigger] self.paths@[i]).0 == (start, goal)
                    && self.paths@[i].1.0@.contains(path_coord),
    {
        let mut i: usize = 0;
        while i < self.paths.len()
            invariant
                i <= self.paths@.len(),
                forall|a: int|
                    0 <= a < i && (#[trigger] self.paths@[a]).0 == (start, goal) ==> !self.paths@[a].1.0@.contains(
                        path_coord,
                    ),
            decreases self.paths@.len() - i,
        {
            let entry = &self.paths[i];
            if is_goal(entry.0.0, start) && is_goal(entry.0.1, goal) {
                let path = &entry.1.0;
                proof {
                    assert(entry.0 == (start, goal));
                }
                let mut j: usize = 0;
                while j < path.len()
                    invariant
                        i < self.paths@.len(),
                        path@ == self.paths@[i as int].1.0@,
                        self.paths@[i as int].0 == (start, goal),
                        j <= path@.len(),
                        forall|b: int| 0 <= b < j ==> path@[b] != path_coord,
                    decreases path@.len() - j,
                {
                    if is_goal(path[j], path_coord) {
                        proof {
                            assert(path@[j as int] == path_coord);
                            assert(self.paths@[i as int].1.0@.contains(path_coord));
                        }
                        return true;
                    }
                    j = j + 1;
                }
                proof {
                    assert(!path@.contains(path_coord));
                }
            }
            i = i + 1;
        }
        proof {
            assert forall|a: int| 0 <= a < self.paths@.len() && (#[trigger] self.paths@[a]).0 == (start, goal) implies !self.paths@[a].1.0@.contains(path_coord) by {}
        }
        false
    }
}

/// An entry of the dead-end table: keyed by `start` and a dead end, holding a
/// cheapest walk there with its cost.
pub open spec fn end_entry_ok(
    g: GridView,
    costs: Seq<u32>,
    start: Coords,
    e: ((Coords, Coords), (Vec<Coords>, u32)),
) -> bool {
    &&& e.0.0 == start
    &&& g.in_bounds(e.0.1)
    &&& g.cell(e.0.1).passages() == 1
    &&& cheapest(costs, g, start, e.0.1, (e.1.0@, e.1.1))
    &&& e.1.1 >= manhattan(start, e.0.1)
}

/// The dead-end table after the first `k` ends: every entry is sound and keyed
/// by one of them, keys are distinct, every reachable one has an entry, and
/// when all of them are reachable there is one entry each.
pub open spec fn ends_table(
    g: GridView,
    costs: Seq<u32>,
    start: Coords,
    ends: Seq<(Coords, crate::cell::Cell)>,
    paths: Seq<((Coords, Coords), (Vec<Coords>, u32))>,
    k: int,
) -> bool {
    &&& paths.len() <= k
    &&& forall|i: int| 0 <= i < paths.len() ==> end_entry_ok(g, costs, start, #[trigger] paths[i])
    &&& forall|i: int| 0 <= i < paths.len() ==> exists|a: int| 0 <= a < k && (#[trigger] paths[i]).0.1 == ends[a].0
    &&& forall|i: int, j: int| 0 <= i < j < paths.len() ==> (#[trigger] paths[i]).0 != (#[trigger] paths[j]).0
    &&& forall|a: int| 0 <= a < k && walk_exists(g, start, (#[trigger] ends[a]).0)
        ==> exists|i: int| 0 <= i < paths.len() && (#[trigger] paths[i]).0 == (start, ends[a].0)
    &&& (forall|a: int| 0 <= a < k ==> walk_exists(g, start, (#[trigger] ends[a]).0)) ==> paths.len() == k
}

/// The dead ends of `g`, as `ends` returns them: in bounds, dead ends, and in
/// strictly increasing row-major position.
pub open spec fn ends_listed(g: GridView, ends: Seq<(Coords, crate::cell::Cell)>) -> bool {
    &&& forall|a: int| 0 <= a < ends.len() ==> g.in_bounds(#[trigger] ends[a].0) && ends[a].1 == g.cell(ends[a].0)
        && ends[a].1.passages() == 1
    &&& forall|a: int, b: int| 0 <= a < b < ends.len() ==> g.index_of(#[trigger] ends[a].0) < g.index_of(#[trigger] ends[b].0)
}

proof fn lemma_table_push(
    g: GridView,
    costs: Seq<u32>,
    start: Coords,
    ends: Seq<(Coords, crate::cell::Cell)>,
    before: Seq<((Coords, Coords), (Vec<Coords>, u32))>,
    e: ((Coords, Coords), (Vec<Coords>, u32)),
    k: int,
)
    requires
        0 <= k < ends.len(),
        ends_listed(g, ends),
        ends_table(g, costs, start, ends, before, k),
        e.0 == (start, ends[k].0),
        cheapest(costs, g, start, ends[k].0, (e.1.0@, e.1.1)),
        e.1.1 >= manhattan(start, ends[k].0),
    ensures
        ends_table(g, costs, start, ends, before.push(e), k + 1),
{
    let paths = before.push(e);
    assert(paths[paths.len() - 1] == e);
    assert forall|i: int| 0 <= i < paths.len() implies end_entry_ok(g, costs, start, #[trigger] paths[i]) by {
        if i < before.len() {
            assert(paths[i] == before[i]);
        }
    }
    assert forall|i: int, j: int| 0 <= i < j < paths.len() implies (#[trigger] paths[i]).0 != (#[trigger] paths[j]).0 by {
        assert(paths[i] == before[i]);
        if j == paths.len() - 1 {
            let a = choose|a: int| 0 <= a < k && before[i].0.1 == ends[a].0;
            assert(g.index_of(ends[a].0) < g.index_of(ends[k].0));
        } else {
            assert(paths[j] == before[j]);
        }
    }
    assert forall|i: int| 0 <= i < paths.len() implies exists|a: int| 0 <= a < k + 1 && (#[trigger] paths[i]).0.1 == ends[a].0 by {
        if i < before.len() {
            assert(paths[i] == before[i]);
            let a = choose|a: int| 0 <= a < k && before[i].0.1 == ends[a].0;
        }
    }
    assert forall|a: int| 0 <= a < k + 1 && walk_exists(g, start, (#[trigger] ends[a]).0)
        implies exists|i: int| 0 <= i < paths.len() && (#[trigger] paths[i]).0 == (start, ends[a].0) by {
        if a < k {
            let i = choose|i: int| 0 <= i < before.len() && (#[trigger] before[i]).0 == (start, ends[a].0);
            assert(paths[i] == before[i]);
        }
    }
    if forall|a: int| 0 <= a < k + 1 ==> walk_exists(g, start, (#[trigger] ends[a]).0) {
        assert forall|a: int| 0 <= a < k implies walk_exists(g, start, (#[trigger] ends[a]).0) by {}
    }
}

proof fn lemma_table_skip(
    g: GridView,
    costs: Seq<u32>,
    start: Coords,
    ends: Seq<(Coords, crate::cell::Cell)>,
    paths: Seq<((Coords, Coords), (Vec<Coords>, u32))>,
    k: int,
)
    requires
        0 <= k < ends.len(),
        ends_table(g, costs, start, ends, paths, k),
        !walk_exists(g, start, ends[k].0),
    ensures
        ends_table(g, costs, start, ends, paths, k + 1),
{
    assert forall|i: int| 0 <= i < paths.len() implies exists|a: int| 0 <= a < k + 1 && (#[trigger] paths[i]).0.1 == ends[a].0 by {
        let a = choose|a: int| 0 <= a < k && paths[i].0.1 == ends[a].0;
    }
    assert forall|a: int| 0 <= a < k + 1 && walk_exists(g, start, (#[trigger] ends[a]).0)
        implies exists|i: int| 0 <= i < paths.len() && (#[trigger] paths[i]).0 == (start, ends[a].0) by {
        assert(a < k);
    }
    assert(!(forall|a: int| 0 <= a < k + 1 ==> walk_exists(g, start, (#[trigger] ends[a]).0)));
}

/// Finds a cheapest path from `start` to every dead end of the maze, in
/// row-major order of the ends. A dead end that cannot be reached gets no entry.
pub fn find_maze_ends_paths(maze: &OrthogonalMaze, start: Coords, costs: &Vec<u32>) -> (r: MazeEndsPaths)
    requires
        maze.wf(),
        maze@.in_bounds(start),
        costs@.len() == maze@.cells.len(),
        costs_fit(costs@),
    ensures
        r.paths@.len() <= ends_of(maze@).len(),
        forall|i: int| 0 <= i < r.paths@.len() ==> end_entry_ok(maze@, costs@, start, #[trigger] r.paths@[i]),
        forall|i: int, j: int| 0 <= i < j < r.paths@.len() ==> (#[trigger] r.paths@[i]).0 != (#[trigger] r.paths@[j]).0,
        forall|a: int| 0 <= a < ends_of(maze@).len() && walk_exists(maze@, start, (#[trigger] ends_of(maze@)[a]).0)
            ==> exists|i: int| 0 <= i < r.paths@.len() && (#[trigger] r.paths@[i]).0 == (start, ends_of(maze@)[a].0),
        (forall|a: int| 0 <= a < ends_of(maze@).len() ==> walk_exists(maze@, start, (#[trigger] ends_of(maze@)[a]).0))
            ==> r.paths@.len() == ends_of(maze@).len(),
        fully_connected(maze@) ==> r.paths@.len() == ends_of(maze@).len(),
{
    let ends = maze.ends();
    let mut paths: Vec<((Coords, Coords), (Vec<Coords>, u32))> = Vec::new();
    let mut k: usize = 0;
    while k < ends.len()
        invariant
            maze.wf(),
            maze@.in_bounds(start),
            costs@.len() == maze@.cells.len(),
            costs_fit(costs@),
            ends@ == ends_of(maze@),
            ends_listed(maze@, ends@),
            k <= ends@.len(),
            ends_table(maze@, costs@, start, ends@, paths@, k as int),
        decreases ends@.len() - k,
    {
        let goal = ends[k].0;
        let ghost before = paths@;
        if let Some(found) = find_path(maze, start, goal, costs) {
            let entry = ((start, goal), found);
            paths.push(entry);
            proof {
                lemma_table_push(maze@, costs@, start, ends@, before, entry, k as int);
            }
        } else {
            proof {
                lemma_table_skip(maze@, costs@, start, ends@, paths@, k as int);
            }
        }
        k = k + 1;
    }
    proof {
        assert forall|a: int| 0 <= a < ends_of(maze@).len() && walk_exists(maze@, start, (#[trigger] ends_of(maze@)[a]).0)
            implies exists|i: int| 0 <= i < paths@.len() && (#[trigger] paths@[i]).0 == (start, ends_of(maze@)[a].0) by {
            assert(ends@[a] == ends_of(maze@)[a]);
        }
        if fully_connected(maze@) {
            maze.lemma_wf();
            assert forall|a: int| 0 <= a < ends_of(maze@).len() implies walk_exists(maze@, start, (#[trigger] ends_of(maze@)[a]).0) by {
                assert(ends@[a] == ends_of(maze@)[a]);
                lemma_connected_walk(maze@, start, ends@[a].0);
            }
        }
        if forall|a: int| 0 <= a < ends_of(maze@).len() ==> walk_exists(maze@, start, (#[trigger] ends_of(maze@)[a]).0) {
            assert forall|a: int| 0 <= a < k implies walk_exists(maze@, start, (#[trigger] ends@[a]).0) by {
                assert(ends@[a] == ends_of(maze@)[a]);
            }
        }
    }
    MazeEndsPaths { paths }
}

} // verus!

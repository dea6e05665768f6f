//! A finished maze over one grid.

use vstd::prelude::*;
use crate::cell::Cell;
use crate::formatters::{narrow_text, AsciiNarrow, Formatter, StringWrapper};
use crate::grid::{Coords, Grid, GridView};
use crate::validate::{fully_connected, validate};

verus! {

/// The cell at row-major position `i`, paired with its coordinates.
pub open spec fn entry_at(g: GridView, i: int) -> (Coords, Cell) {
    (((i % g.width as int) as usize, (i / g.width as int) as usize), g.cells[i])
}

/// Every cell of `g` with its coordinates, in row-major order.
pub open spec fn entries(g: GridView) -> Seq<(Coords, Cell)> {
    Seq::new(g.cells.len(), |i: int| entry_at(g, i))
}

/// The dead ends of `g`: the entries whose cell has exactly one open passage.
pub open spec fn ends_of(g: GridView) -> Seq<(Coords, Cell)> {
    entries(g).filter(|e: (Coords, Cell)| e.1.passages() == 1)
}

/// Each entry sits at the row-major position of its coordinates, and holds the
/// cell at those coordinates.
pub proof fn lemma_entries_row_major(g: GridView, i: int)
    requires
        g.wf(),
        0 <= i < g.cells.len(),
    ensures
        g.in_bounds(entries(g)[i].0),
        g.index_of(entries(g)[i].0) == i,
        entries(g)[i].1 == g.cell(entries(g)[i].0),
{
    let w = g.width as int;
    assert(w > 0) by {
        if w == 0 {
            assert(g.cells.len() == 0) by (nonlinear_arith)
                requires
                    g.cells.len() == g.width * g.height,
                    g.width == 0,
            ;
        }
    }
    let x = i % w;
    let y = i / w;
    assert(i == y * w + x && 0 <= x < w) by (nonlinear_arith)
        requires
            w > 0,
            x == i % w,
            y == i / w,
    ;
    assert(0 <= y < g.height) by (nonlinear_arith)
        requires
            i == y * w + x,
            0 <= x < w,
            0 <= i < g.width * g.height,
            w == g.width,
    ;
}

/// Iterating over a grid of `N` cells yields exactly `N` entries; entry `i` holds
/// the coordinates whose row-major position is `i` and the cell found there.
pub proof fn lemma_iteration_covers_grid(g: GridView)
    requires
        g.wf(),
    ensures
        entries(g).len() == g.width * g.height,
        forall|i: int|
            0 <= i < entries(g).len() ==> g.in_bounds(#[trigger] entries(g)[i].0) && g.index_of(entries(g)[i].0)
                == i && entries(g)[i].1 == g.cell(entries(g)[i].0),
{
    assert forall|i: int| 0 <= i < entries(g).len() implies g.in_bounds(#[trigger] entries(g)[i].0) && g.index_of(
        entries(g)[i].0,
    ) == i && entries(g)[i].1 == g.cell(entries(g)[i].0) by {
        lemma_entries_row_major(g, i);
    }
}

/// The consuming iterator yields the same sequence as the borrowing one and
/// ends empty: started from `(0, width, cells)`, after `k` steps it holds
/// `(k, width, cells[k..])`, its next step yields `entries(g)[k]`, and once every
/// cell is out nothing is left.
pub proof fn lemma_into_iter_matches_iter(g: GridView, k: nat)
    requires
        g.wf(),
        k <= g.cells.len(),
    ensures
        k == 0 ==> g.cells.skip(k as int) == g.cells,
        k < g.cells.len() ==> g.width > 0 && (
            ((k as int % g.width as int) as usize, (k as int / g.width as int) as usize),
            g.cells.skip(k as int)[0],
        ) == entries(g)[k as int] && g.cells.skip(k as int).drop_first() == g.cells.skip(k + 1int),
        k == g.cells.len() ==> g.cells.skip(k as int).len() == 0,
{
    if k == 0 {
        assert(g.cells.skip(0) =~= g.cells);
    }
    if k < g.cells.len() {
        lemma_entries_row_major(g, k as int);
        assert(g.cells.skip(k as int).drop_first() =~= g.cells.skip(k + 1int));
    }
}

/// What one call of the consuming iterator's `next` yields from the state
/// `(handed out, width, cells held)`, and the state it leaves.
pub open spec fn into_step(st: (nat, nat, Seq<Cell>)) -> (Option<(Coords, Cell)>, (nat, nat, Seq<Cell>)) {
    if st.2.len() > 0 {
        (
            Some(((((st.0 as int) % (st.1 as int)) as usize, ((st.0 as int) / (st.1 as int)) as usize), st.2[0])),
            (st.0 + 1, st.1, st.2.drop_first()),
        )
    } else {
        (None, st)
    }
}

/// The state after `k` calls of `next`.
pub open spec fn into_after(st: (nat, nat, Seq<Cell>), k: nat) -> (nat, nat, Seq<Cell>)
    decreases k,
{
    if k == 0 {
        st
    } else {
        into_step(into_after(st, (k - 1) as nat)).1
    }
}

/// What the first `k` calls of `next` yield, in order.
pub open spec fn into_drained(st: (nat, nat, Seq<Cell>), k: nat) -> Seq<Option<(Coords, Cell)>>
    decreases k,
{
    if k == 0 {
        seq![]
    } else {
        into_drained(st, (k - 1) as nat).push(into_step(into_after(st, (k - 1) as nat)).0)
    }
}

/// Consuming a maze of `N` cells: the first `N` calls of `next` yield exactly
/// the entries of the borrowing iterator, in the same order, and leave no cell
/// held, so the call after them yields `None`.
pub proof fn lemma_into_iter_drains(g: GridView)
    requires
        g.wf(),
    ensures
        into_drained((0, g.width, g.cells), g.cells.len()) == entries(g).map_values(|e: (Coords, Cell)| Some(e)),
        into_after((0, g.width, g.cells), g.cells.len()).2.len() == 0,
        into_step(into_after((0, g.width, g.cells), g.cells.len())).0 is None,
{
    let st = (0nat, g.width, g.cells);
    let n = g.cells.len();
    let want = entries(g).map_values(|e: (Coords, Cell)| Some(e));
    assert forall|k: nat| k <= n implies into_after(st, k) == (k, g.width, g.cells.skip(k as int))
        && #[trigger] into_drained(st, k) == want.take(k as int) by {
        lemma_into_prefix(g, k);
    }
    assert(want.take(n as int) =~= want);
    lemma_into_prefix(g, n);
    assert(g.cells.skip(n as int).len() == 0);
}

proof fn lemma_into_prefix(g: GridView, k: nat)
    requires
        g.wf(),
        k <= g.cells.len(),
    ensures
        into_after((0, g.width, g.cells), k) == (k, g.width, g.cells.skip(k as int)),
        into_drained((0, g.width, g.cells), k) == entries(g).map_values(|e: (Coords, Cell)| Some(e)).take(k as int),
    decreases k,
{
    let st = (0nat, g.width, g.cells);
    let want = entries(g).map_values(|e: (Coords, Cell)| Some(e));
    if k == 0 {
        assert(g.cells.skip(0) =~= g.cells);
        assert(want.take(0) =~= Seq::<Option<(Coords, Cell)>>::empty());
    } else {
        let p = (k - 1) as nat;
        lemma_into_prefix(g, p);
        lemma_into_iter_matches_iter(g, p);
        assert(g.cells.skip(p as int).len() > 0);
        assert(want.take(k as int) =~= want.take(p as int).push(want[p as int]));
    }
}

/// A maze: a grid whose passages have been carved by one generation run.
#[derive(Debug, Clone, PartialEq, Eq)]
pub struct OrthogonalMaze {
    grid: Grid,
}

impl View for OrthogonalMaze {
    type V = GridView;

    closed spec fn view(&self) -> GridView {
        self.grid@
    }
}

impl OrthogonalMaze {
    /// The grid behind the maze is well formed.
    pub closed spec fn wf(&self) -> bool {
        self.grid.wf()
    }

    pub proof fn lemma_wf(&self)
        ensures
            self.wf() <==> (self@.wf() && self@.width * self@.height <= usize::MAX && self@.symmetric()),
    {
    }

    /// Returns a maze of `width * height` cells with no passage carved yet.
    pub fn new(width: usize, height: usize) -> (r: OrthogonalMaze)
        requires
            width * height <= usize::MAX,
        ensures
            r.wf(),
            r@.width == width,
            r@.height == height,
            r@.cells == Seq::new((width * height) as nat, |i: int| Cell { bits: 0 }),
    {
        OrthogonalMaze { grid: Grid::new(width, height) }
    }

    /// Returns the grid, for carving.
    pub fn get_grid_mut(&mut self) -> (r: &mut Grid)
        requires
            old(self).wf(),
        ensures
            r@ == old(self)@,
            r.wf(),
            final(r).wf() ==> final(self).wf(),
            final(self)@ == final(r)@,
    {
        &mut self.grid
    }

    /// Returns the grid.
    pub fn grid(&self) -> (r: &Grid)
        ensures
            r@ == self@,
            self.wf() ==> r.wf(),
    {
        &self.grid
    }

    pub fn width(&self) -> (r: usize)
        ensures
            r == self@.width,
    {
        self.grid.width()
    }

    pub fn height(&self) -> (r: usize)
        ensures
            r == self@.height,
    {
        self.grid.height()
    }

    /// Returns the cell at `coords`.
    pub fn cell(&self, coords: Coords) -> (r: Cell)
        requires
            self.wf(),
            self@.in_bounds(coords),
        ensures
            r == self@.cell(coords),
    {
        self.grid.cell(coords)
    }

    /// Returns `true` iff the maze has cells and each of them can be reached from
    /// `(0, 0)` through open passages.
    pub fn is_valid(&self) -> (r: bool)
        requires
            self.wf(),
        ensures
            r == fully_connected(self@),
    {
        validate(&self.grid)
    }

    /// Returns an iterator over `(coords, cell)` for every cell, in row-major order.
    pub fn iter(&self) -> (r: OrthogonalMazeIterator<'_>)
        ensures
            r.index == 0,
            r.maze == self,
    {
        OrthogonalMazeIterator { maze: self, index: 0 }
    }

    /// Returns every cell with exactly three walls, with its coordinates, in
    /// row-major order.
    pub fn ends(&self) -> (r: Vec<(Coords, Cell)>)
        requires
            self.wf(),
        ensures
            r@ == ends_of(self@),
            forall|i: int| 0 <= i < r@.len() ==> self@.in_bounds(#[trigger] r@[i].0) && r@[i].1 == self@.cell(r@[i].0)
                && r@[i].1.passages() == 1,
            forall|i: int, j: int| 0 <= i < j < r@.len() ==> self@.index_of(#[trigger] r@[i].0) < self@.index_of(
                #[trigger] r@[j].0,
            ),
    {
        let ghost g = self@;
        let ghost pred = |e: (Coords, Cell)| e.1.passages() == 1;
        let mut result: Vec<(Coords, Cell)> = Vec::new();
        let mut it = self.iter();
        let n = self.grid.cells_ref().len();
        while it.index < n
            invariant
                it.maze == self,
                self.wf(),
                g == self@,
                n == g.cells.len(),
                pred == (|e: (Coords, Cell)| e.1.passages() == 1),
                it.index <= n,
                result@ == entries(g).take(it.index as int).filter(pred),
                forall|a: int| 0 <= a < result@.len() ==> g.in_bounds(#[trigger] result@[a].0) && result@[a].1 == g.cell(result@[a].0)
                    && result@[a].1.passages() == 1 && g.index_of(result@[a].0) < it.index,
                forall|a: int, b: int| 0 <= a < b < result@.len() ==> g.index_of(#[trigger] result@[a].0) < g.index_of(
                    #[trigger] result@[b].0,
                ),
            decreases n - it.index,
        {
            let ghost i = it.index as int;
            let next = it.next();
            if let Some(e) = next {
                proof {
                    reveal(Seq::filter);
                    assert(entries(g).take(i + 1).drop_last() =~= entries(g).take(i));
                    assert(entries(g).take(i + 1).last() == e);
                    assert(entries(g).take(i + 1).len() == i + 1);
                }
                let ghost prev = result@;
                proof {
                    lemma_entries_row_major(g, i);
                }
                if e.1.walls_count() == 3 {
                    result.push(e);
                    assert(result@[result@.len() - 1] == e);
                    assert forall|a: int| 0 <= a < prev.len() implies #[trigger] result@[a] == prev[a] by {}
                    assert(pred(e));
                    assert(result@ == prev.push(e));
                } else {
                    assert(!pred(e));
                }
            }
        }
        proof {
            assert(entries(g).take(n as int) =~= entries(g));
        }
        result
    }

    /// Returns the maze as the given formatter renders it.
    pub fn format<F: Formatter<T>, T>(&self, formatter: F) -> (r: T)
        requires
            self.wf(),
            formatter.fits(self@),
        ensures
            formatter.formats(self@, r),
    {
        formatter.format(&self.grid)
    }

    /// Returns the maze drawn as narrow ASCII text.
    pub fn to_string(&self) -> (r: String)
        requires
            self.wf(),
        ensures
            r@ == narrow_text(self@),
    {
        AsciiNarrow.format(&self.grid).into_inner()
    }

    /// Returns an iterator that hands out every `(coords, cell)` in row-major
    /// order, taking the cells out of the maze.
    pub fn into_iter(self) -> (r: OrthogonalMazeIntoIterator)
        requires
            self.wf(),
        ensures
            r.wf(),
            r@ == (0nat, self@.width, self@.cells),
    {
        let width = self.grid.width();
        proof {
            if self@.cells.len() > 0 {
                lemma_entries_row_major(self@, 0);
            }
        }
        OrthogonalMazeIntoIterator { cells: self.grid.into_cells(), index: 0, width }
    }
}

/// Walks a maze's cells in row-major order.
pub struct OrthogonalMazeIterator<'a> {
    pub maze: &'a OrthogonalMaze,
    pub index: usize,
}

impl<'a> OrthogonalMazeIterator<'a> {
    /// Returns the next `(coords, cell)`, or `None` once every cell has been seen.
    pub fn next(&mut self) -> (r: Option<(Coords, Cell)>)
        requires
            old(self).maze.wf(),
        ensures
            final(self).maze == old(self).maze,
            old(self).index < old(self).maze@.cells.len() ==> r == Some(
                entries(old(self).maze@)[old(self).index as int],
            ) && final(self).index == old(self).index + 1,
            old(self).index >= old(self).maze@.cells.len() ==> r is None && final(self).index
                == old(self).index,
    {
        let cells = self.maze.grid.cells_ref();
        if self.index < cells.len() {
            let width = self.maze.grid.width();
            proof {
                lemma_entries_row_major(self.maze@, self.index as int);
            }
            let i = self.index;
            let result = Some(((i % width, i / width), cells[i]));
            self.index = i + 1;
            result
        } else {
            None
        }
    }
}

/// Hands out a maze's cells in row-major order, removing each as it goes.
pub struct OrthogonalMazeIntoIterator {
    cells: Vec<Cell>,
    index: usize,
    width: usize,
}

impl View for OrthogonalMazeIntoIterator {
    /// How many cells were handed out, the maze's width, and the cells still held.
    type V = (nat, nat, Seq<Cell>);

    closed spec fn view(&self) -> (nat, nat, Seq<Cell>) {
        (self.index as nat, self.width as nat, self.cells@)
    }
}

impl OrthogonalMazeIntoIterator {
    /// The cells still held can be numbered on from the count handed out, and
    /// a maze with cells has columns.
    pub open spec fn wf(&self) -> bool {
        &&& self@.0 + self@.2.len() <= usize::MAX
        &&& self@.2.len() > 0 ==> self@.1 > 0
    }

    /// Removes and returns the first cell still held, with its coordinates, or
    /// `None` once none is left.
    pub fn next(&mut self) -> (r: Option<(Coords, Cell)>)
        requires
            old(self).wf(),
        ensures
            final(self).wf(),
            (r, final(self)@) == into_step(old(self)@),
            old(self)@.2.len() > 0 ==> r == Some(
                (
                    (
                        (old(self)@.0 as int % old(self)@.1 as int) as usize,
                        (old(self)@.0 as int / old(self)@.1 as int) as usize,
                    ),
                    old(self)@.2[0],
                ),
            ) && final(self)@ == (old(self)@.0 + 1, old(self)@.1, old(self)@.2.drop_first()),
            old(self)@.2.len() == 0 ==> r is None && final(self)@ == old(self)@,
    {
        if self.cells.len() == 0 {
            return None;
        }
        let cell = self.cells.remove(0);
        let coords = (self.index % self.width, self.index / self.width);
        self.index = self.index + 1;
        assert(self.cells@ =~= old(self).cells@.drop_first());
        Some((coords, cell))
    }
}

} // verus!

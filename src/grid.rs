//! A rectangular array of cells with passage carving.

use vstd::prelude::*;
use crate::cell::{bit_of, opposite_of, Cell, Direction};

verus! {

/// A grid position: `x` grows rightward, `y` grows downward.
pub type Coords = (usize, usize);

/// An attempt to move or carve past the edge of the grid.
#[derive(Clone, Copy, Debug)]
pub struct TransitError {
    /// The cell the move started from.
    pub coords: Coords,
    /// The direction that leads off the grid.
    pub direction: Direction,
}

/// The mathematical content of a grid: its size and its cells in row-major order.
pub ghost struct GridView {
    pub width: nat,
    pub height: nat,
    pub cells: Seq<Cell>,
}

impl GridView {
    pub open spec fn in_bounds(self, c: Coords) -> bool {
        c.0 < self.width && c.1 < self.height
    }

    /// The row-major position of `c`.
    pub open spec fn index_of(self, c: Coords) -> int {
        c.1 * self.width + c.0
    }

    pub open spec fn cell(self, c: Coords) -> Cell {
        self.cells[self.index_of(c)]
    }

    pub open spec fn carved(self, c: Coords, d: Direction) -> bool {
        self.cell(c).has(d)
    }

    /// The cell one step from `c` toward `d`, or `None` past the edge.
    pub open spec fn neighbor(self, c: Coords, d: Direction) -> Option<Coords> {
        match d {
            Direction::North => if c.1 > 0 { Some((c.0, (c.1 - 1) as usize)) } else { None },
            Direction::South => if c.1 + 1 < self.height { Some((c.0, (c.1 + 1) as usize)) } else { None },
            Direction::West => if c.0 > 0 { Some(((c.0 - 1) as usize, c.1)) } else { None },
            Direction::East => if c.0 + 1 < self.width { Some(((c.0 + 1) as usize, c.1)) } else { None },
        }
    }

    pub open spec fn wf(self) -> bool {
        &&& self.width <= usize::MAX
        &&& self.height <= usize::MAX
        &&& self.cells.len() == self.width * self.height
        &&& forall|i: int| 0 <= i < self.cells.len() ==> (#[trigger] self.cells[i]).is_well_formed()
    }

    /// Every passage is open from both ends, and no passage leads off the grid.
    pub open spec fn symmetric(self) -> bool {
        forall|c: Coords, d: Direction|
            self.in_bounds(c) ==> match self.neighbor(c, d) {
                Some(n) => #[trigger] self.carved(c, d) == self.carved(n, opposite_of(d)),
                None => !self.carved(c, d),
            }
    }

    /// The grid after opening the passage from `c` toward `d` at both of its ends.
    pub open spec fn carve(self, c: Coords, d: Direction) -> GridView {
        match self.neighbor(c, d) {
            Some(n) => GridView {
                cells: self.cells.update(self.index_of(c), self.cell(c).with(d)).update(
                    self.index_of(n),
                    self.cell(n).with(opposite_of(d)),
                ),
                ..self
            },
            None => self,
        }
    }
}

/// The open sides of all cells together: twice the number of passages on a
/// symmetric grid.
pub open spec fn open_sides(cells: Seq<Cell>) -> int
    decreases cells.len(),
{
    if cells.len() == 0 {
        0
    } else {
        open_sides(cells.drop_last()) + cells.last().passages()
    }
}

/// Replacing one cell changes the open sides by the difference.
pub proof fn lemma_open_sides_update(cells: Seq<Cell>, i: int, c: Cell)
    requires
        0 <= i < cells.len(),
    ensures
        open_sides(cells.update(i, c)) == open_sides(cells) - cells[i].passages() + c.passages(),
    decreases cells.len(),
{
    let u = cells.update(i, c);
    if i == cells.len() - 1 {
        assert(u.drop_last() =~= cells.drop_last());
    } else {
        assert(u.drop_last() =~= cells.drop_last().update(i, c));
        lemma_open_sides_update(cells.drop_last(), i, c);
    }
}

/// Cells without flags have no open sides.
pub proof fn lemma_open_sides_blank(cells: Seq<Cell>)
    requires
        forall|i: int| 0 <= i < cells.len() ==> (#[trigger] cells[i]).bits == 0,
    ensures
        open_sides(cells) == 0,
    decreases cells.len(),
{
    if cells.len() > 0 {
        assert(0u8 & 1 == 0 && 0u8 & 2 == 0 && 0u8 & 4 == 0 && 0u8 & 8 == 0) by (bit_vector);
        lemma_open_sides_blank(cells.drop_last());
    }
}

pub proof fn lemma_index_in_range(w: nat, h: nat, c: Coords)
    requires
        c.0 < w,
        c.1 < h,
    ensures
        0 <= c.1 * w + c.0 < w * h,
{
    assert(c.1 * w + c.0 < w * h) by (nonlinear_arith)
        requires
            c.0 < w,
            c.1 < h,
    ;
}

pub proof fn lemma_index_injective(w: nat, a: Coords, b: Coords)
    requires
        a.0 < w,
        b.0 < w,
        a.1 * w + a.0 == b.1 * w + b.0,
    ensures
        a == b,
{
    if a.1 < b.1 {
        assert(a.1 * w + w <= b.1 * w) by (nonlinear_arith)
            requires
                a.1 < b.1,
        ;
    } else if b.1 < a.1 {
        assert(b.1 * w + w <= a.1 * w) by (nonlinear_arith)
            requires
                b.1 < a.1,
        ;
    }
}

pub proof fn lemma_neighbor_in_bounds(g: GridView, c: Coords, d: Direction)
    requires
        g.in_bounds(c),
        g.width <= usize::MAX,
        g.height <= usize::MAX,
    ensures
        match g.neighbor(c, d) {
            Some(n) => g.in_bounds(n) && n != c && g.neighbor(n, opposite_of(d)) == Some(c),
            None => true,
        },
{
    match d {
        Direction::North => {
            if c.1 > 0 {
                assert(((c.1 - 1) as usize) + 1 == c.1);
            }
        },
        Direction::West => {
            if c.0 > 0 {
                assert(((c.0 - 1) as usize) + 1 == c.0);
            }
        },
        _ => {},
    }
}

/// Carving keeps every cell within the four direction flags, and touches two
/// distinct cells.
pub proof fn lemma_carve_wf(g: GridView, c: Coords, d: Direction)
    requires
        g.wf(),
        g.in_bounds(c),
    ensures
        g.carve(c, d).wf(),
        match g.neighbor(c, d) {
            Some(n) => g.in_bounds(n) && g.index_of(c) != g.index_of(n) && 0 <= g.index_of(c)
                < g.cells.len() && 0 <= g.index_of(n) < g.cells.len(),
            None => true,
        },
{
    lemma_neighbor_in_bounds(g, c, d);
    lemma_index_in_range(g.width, g.height, c);
    if let Some(n) = g.neighbor(c, d) {
        let g2 = g.carve(c, d);
        lemma_index_in_range(g.width, g.height, n);
        assert(g.index_of(c) != g.index_of(n)) by {
            if g.index_of(c) == g.index_of(n) {
                lemma_index_injective(g.width, c, n);
            }
        }
        assert forall|i: int| 0 <= i < g2.cells.len() implies (#[trigger] g2.cells[i]).is_well_formed() by {
            if i == g.index_of(c) {
                g.cell(c).lemma_with(d, d);
            } else if i == g.index_of(n) {
                g.cell(n).lemma_with(opposite_of(d), d);
            }
        }
    }
}

/// Carving between two cells keeps the grid symmetric.
pub proof fn lemma_carve_symmetric(g: GridView, c: Coords, d: Direction)
    requires
        g.wf(),
        g.symmetric(),
        g.in_bounds(c),
    ensures
        g.carve(c, d).symmetric(),
{
    lemma_neighbor_in_bounds(g, c, d);
    if let Some(n) = g.neighbor(c, d) {
        let g2 = g.carve(c, d);
        lemma_index_in_range(g.width, g.height, c);
        lemma_index_in_range(g.width, g.height, n);
        assert(g.index_of(c) != g.index_of(n)) by {
            if g.index_of(c) == g.index_of(n) {
                lemma_index_injective(g.width, c, n);
            }
        }
        assert forall|c2: Coords, d2: Direction| g2.in_bounds(c2) implies match g2.neighbor(c2, d2) {
            Some(n2) => #[trigger] g2.carved(c2, d2) == g2.carved(n2, opposite_of(d2)),
            None => !g2.carved(c2, d2),
        } by {
            lemma_neighbor_in_bounds(g, c2, d2);
            lemma_index_in_range(g.width, g.height, c2);
            assert(g.in_bounds(c2) ==> match g.neighbor(c2, d2) {
                Some(n2) => g.carved(c2, d2) == g.carved(n2, opposite_of(d2)),
                None => !g.carved(c2, d2),
            });
            let same_c = g.index_of(c2) == g.index_of(c);
            let same_n = g.index_of(c2) == g.index_of(n);
            if same_c {
                lemma_index_injective(g.width, c2, c);
            }
            if same_n {
                lemma_index_injective(g.width, c2, n);
            }
            g.cell(c).lemma_with(d, d2);
            g.cell(n).lemma_with(opposite_of(d), d2);
            if let Some(n2) = g.neighbor(c2, d2) {
                lemma_index_in_range(g.width, g.height, n2);
                let od2 = opposite_of(d2);
                if g.index_of(n2) == g.index_of(c) {
                    lemma_index_injective(g.width, n2, c);
                }
                if g.index_of(n2) == g.index_of(n) {
                    lemma_index_injective(g.width, n2, n);
                }
                g.cell(c).lemma_with(d, od2);
                g.cell(n).lemma_with(opposite_of(d), od2);
            }
        }
    }
}

/// A `width` by `height` array of cells, stored row by row.
#[derive(Debug, Clone, PartialEq, Eq)]
pub struct Grid {
    width: usize,
    height: usize,
    cells: Vec<Cell>,
}

impl View for Grid {
    type V = GridView;

    closed spec fn view(&self) -> GridView {
        GridView { width: self.width as nat, height: self.height as nat, cells: self.cells@ }
    }
}

impl Grid {
    /// The grid's size fits the machine, its cells match its size, and every
    /// passage is open from both ends.
    pub open spec fn wf(&self) -> bool {
        &&& self@.wf()
        &&& self@.width * self@.height <= usize::MAX
        &&& self@.symmetric()
    }

    /// Returns a grid of `width * height` cells, none of them carved.
    pub fn new(width: usize, height: usize) -> (r: Grid)
        requires
            width * height <= usize::MAX,
        ensures
            r.wf(),
            r@.width == width,
            r@.height == height,
            r@.cells == Seq::new((width * height) as nat, |i: int| Cell { bits: 0 }),
            r@.symmetric(),
    {
        let n: usize = width * height;
        let mut cells: Vec<Cell> = Vec::new();
        let mut i: usize = 0;
        while i < n
            invariant
                i <= n,
                cells@ == Seq::new(i as nat, |k: int| Cell { bits: 0 }),
            decreases n - i,
        {
            cells.push(Cell::empty());
            i = i + 1;
            assert(cells@ =~= Seq::new(i as nat, |k: int| Cell { bits: 0 }));
        }
        let r = Grid { width, height, cells };
        assert forall|i: int| 0 <= i < r@.cells.len() implies (#[trigger] r@.cells[i]).is_well_formed() by {
            assert(0u8 & 0xf0 == 0) by (bit_vector);
        }
        assert forall|c: Coords, d: Direction| r@.in_bounds(c) implies match r@.neighbor(c, d) {
            Some(m) => #[trigger] r@.carved(c, d) == r@.carved(m, opposite_of(d)),
            None => !r@.carved(c, d),
        } by {
            lemma_neighbor_in_bounds(r@, c, d);
            lemma_index_in_range(r@.width, r@.height, c);
            assert(0u8 & bit_of(d) == 0) by (bit_vector);
            assert(0u8 & bit_of(opposite_of(d)) == 0) by (bit_vector);
            if let Some(m) = r@.neighbor(c, d) {
                lemma_index_in_range(r@.width, r@.height, m);
            }
        }
        r
    }

    pub fn width(&self) -> (r: usize)
        ensures
            r == self@.width,
    {
        self.width
    }

    pub fn height(&self) -> (r: usize)
        ensures
            r == self@.height,
    {
        self.height
    }

    /// Returns the cells in row-major order.
    pub fn cells_ref(&self) -> (r: &Vec<Cell>)
        ensures
            r@ == self@.cells,
    {
        &self.cells
    }

    /// Gives up the grid for its cells in row-major order.
    pub fn into_cells(self) -> (r: Vec<Cell>)
        ensures
            r@ == self@.cells,
    {
        self.cells
    }

    /// Returns the row-major position of `coords`.
    pub fn get_index(&self, coords: Coords) -> (r: usize)
        requires
            self.wf(),
            self@.in_bounds(coords),
        ensures
            r == self@.index_of(coords),
            r < self@.cells.len(),
    {
        proof {
            lemma_index_in_range(self@.width, self@.height, coords);
        }
        coords.1 * self.width + coords.0
    }

    /// Returns the cell at `coords`.
    pub fn cell(&self, coords: Coords) -> (r: Cell)
        requires
            self.wf(),
            self@.in_bounds(coords),
        ensures
            r == self@.cell(coords),
    {
        self.cells[self.get_index(coords)]
    }

    /// Returns the coordinates one step from `coords` toward `direction`, or a
    /// `TransitError` when that step leaves the grid.
    pub fn get_next_cell_coords(&self, coords: Coords, direction: Direction) -> (r: Result<Coords, TransitError>)
        ensures
            r == (match self@.neighbor(coords, direction) {
                Some(n) => Ok(n),
                None => Err(TransitError { coords, direction }),
            }),
    {
        let (x, y) = coords;
        let next = match direction {
            Direction::North => if y > 0 { Some((x, y - 1)) } else { None },
            Direction::South => if y < self.height && y + 1 < self.height { Some((x, y + 1)) } else { None },
            Direction::West => if x > 0 { Some((x - 1, y)) } else { None },
            Direction::East => if x < self.width && x + 1 < self.width { Some((x + 1, y)) } else { None },
        };
        match next {
            Some(n) => Ok(n),
            None => Err(TransitError { coords, direction }),
        }
    }

    /// Whether the passage from `coords` toward `direction` is open.
    pub fn is_carved(&self, coords: Coords, direction: Direction) -> (r: bool)
        requires
            self.wf(),
            self@.in_bounds(coords),
        ensures
            r == self@.carved(coords, direction),
    {
        self.cell(coords).is_open(direction)
    }

    /// Whether any passage of the cell at `coords` has been opened.
    pub fn is_cell_visited(&self, coords: Coords) -> (r: bool)
        requires
            self.wf(),
            self@.in_bounds(coords),
        ensures
            r == (self@.cell(coords).bits != 0),
    {
        !self.cell(coords).is_empty()
    }

    /// Opens the passage from `coords` toward `direction` at both of its ends and
    /// returns the coordinates of the cell on the other side. Past the edge of the
    /// grid nothing changes and a `TransitError` is returned.
    pub fn carve_passage(&mut self, coords: Coords, direction: Direction) -> (r: Result<Coords, TransitError>)
        requires
            old(self).wf(),
            old(self)@.in_bounds(coords),
        ensures
            final(self).wf(),
            final(self)@ == old(self)@.carve(coords, direction),
            r == (match old(self)@.neighbor(coords, direction) {
                Some(n) => Ok(n),
                None => Err(TransitError { coords, direction }),
            }),
            final(self)@.symmetric(),
    {
        let next = self.get_next_cell_coords(coords, direction);
        match next {
            Ok(n) => {
                proof {
                    lemma_carve_wf(self@, coords, direction);
                    lemma_carve_symmetric(self@, coords, direction);
                }
                let i = self.get_index(coords);
                let j = self.get_index(n);
                let a = self.cells[i].union(Cell::from_direction(direction));
                self.cells.set(i, a);
                let b = self.cells[j].union(Cell::from_direction(direction.opposite()));
                self.cells.set(j, b);
                assert(self@ =~= old(self)@.carve(coords, direction));
                Ok(n)
            },
            Err(e) => Err(e),
        }
    }
}

} // verus!

//! Formatters that turn a grid into text.

use vstd::prelude::*;
use crate::cell::Direction;
use crate::grid::{Grid, GridView};

verus! {

/// Turns a grid into an output representation of type `T`.
pub trait Formatter<T> {
    /// Whether `out` is what this formatter makes of `grid`.
    spec fn formats(&self, grid: GridView, out: T) -> bool;

    /// Whether the output for `grid` fits the machine.
    spec fn fits(&self, grid: GridView) -> bool;

    fn format(&self, grid: &Grid) -> (r: T)
        requires
            grid.wf(),
            self.fits(grid@),
        ensures
            self.formats(grid@, r),
    ;
}

/// Formatted text.
pub struct StringWrapper(pub String);

impl StringWrapper {
    /// Returns the text.
    pub fn into_inner(self) -> (r: String)
        ensures
            r@ == self.0@,
    {
        self.0
    }
}

/// Narrow ASCII: `_` for a closed south side, `|` for a closed east or west side.
pub struct AsciiNarrow;

/// Broad ASCII: three characters per cell, with `+` at wall joints.
pub struct AsciiBroad;

pub open spec fn carved_at(g: GridView, x: int, y: int, d: Direction) -> bool {
    g.carved((x as usize, y as usize), d)
}

/// The character under cell `(x, y)`.
pub open spec fn narrow_south(g: GridView, x: int, y: int) -> Seq<char> {
    if carved_at(g, x, y, Direction::South) {
        seq![' ']
    } else {
        seq!['_']
    }
}

/// The character right of cell `(x, y)`: an underscore joins two closed south
/// sides through an open east side.
pub open spec fn narrow_east(g: GridView, x: int, y: int) -> Seq<char> {
    if carved_at(g, x, y, Direction::East) {
        if carved_at(g, x, y, Direction::South) || carved_at(g, x + 1, y, Direction::South) {
            seq![' ']
        } else {
            seq!['_']
        }
    } else {
        seq!['|']
    }
}

/// The first `n` cells of row `y`, two characters each.
pub open spec fn narrow_cells(g: GridView, y: int, n: nat) -> Seq<char>
    decreases n,
{
    if n == 0 {
        seq![]
    } else {
        narrow_cells(g, y, (n - 1) as nat) + narrow_south(g, n - 1, y) + narrow_east(g, n - 1, y)
    }
}

pub open spec fn narrow_row(g: GridView, y: int) -> Seq<char> {
    seq!['|'] + narrow_cells(g, y, g.width) + seq!['\n']
}

/// The first `n` rows.
pub open spec fn narrow_rows(g: GridView, n: nat) -> Seq<char>
    decreases n,
{
    if n == 0 {
        seq![]
    } else {
        narrow_rows(g, (n - 1) as nat) + narrow_row(g, n - 1)
    }
}

pub open spec fn repeated(s: Seq<char>, n: nat) -> Seq<char>
    decreases n,
{
    if n == 0 {
        seq![]
    } else {
        repeated(s, (n - 1) as nat) + s
    }
}

/// The top border spans `2 * width - 1` characters.
pub open spec fn narrow_border(width: nat) -> nat {
    if width == 0 {
        0
    } else {
        (2 * width - 1) as nat
    }
}

/// The whole narrow ASCII text of `g`.
pub open spec fn narrow_text(g: GridView) -> Seq<char> {
    seq![' '] + repeated(seq!['_'], narrow_border(g.width)) + seq![' ', '\n'] + narrow_rows(g, g.height)
}

/// The side-wall line of row `y`, first `n` cells.
pub open spec fn broad_top_cells(g: GridView, y: int, n: nat) -> Seq<char>
    decreases n,
{
    if n == 0 {
        seq![]
    } else {
        broad_top_cells(g, y, (n - 1) as nat) + seq![' ', ' ', ' '] + if carved_at(
            g,
            n - 1,
            y,
            Direction::East,
        ) {
            seq![' ']
        } else {
            seq!['|']
        }
    }
}

/// The south-wall line of row `y`, first `n` cells.
pub open spec fn broad_bottom_cells(g: GridView, y: int, n: nat) -> Seq<char>
    decreases n,
{
    if n == 0 {
        seq![]
    } else {
        broad_bottom_cells(g, y, (n - 1) as nat) + if carved_at(g, n - 1, y, Direction::South) {
            seq![' ', ' ', ' ', '+']
        } else {
            seq!['-', '-', '-', '+']
        }
    }
}

pub open spec fn broad_row(g: GridView, y: int) -> Seq<char> {
    seq!['|'] + broad_top_cells(g, y, g.width) + seq!['\n', '+'] + broad_bottom_cells(g, y, g.width)
        + seq!['\n']
}

pub open spec fn broad_rows(g: GridView, n: nat) -> Seq<char>
    decreases n,
{
    if n == 0 {
        seq![]
    } else {
        broad_rows(g, (n - 1) as nat) + broad_row(g, n - 1)
    }
}

/// The whole broad ASCII text of `g`; a grid without columns has no rows of text.
pub open spec fn broad_text(g: GridView) -> Seq<char> {
    seq!['+'] + repeated(seq!['-', '-', '-', '+'], g.width) + seq!['\n'] + if g.width > 0 {
        broad_rows(g, g.height)
    } else {
        seq![]
    }
}

fn narrow_row_text(grid: &Grid, y: usize) -> (r: String)
    requires
        grid.wf(),
        y < grid@.height,
    ensures
        r@ == narrow_row(grid@, y as int),
{
    let ghost g = grid@;
    let mut line = String::new();
    proof {
        reveal_strlit("|");
        reveal_strlit("\n");
    }
    line.append("|");
    let w = grid.width();
    let mut x: usize = 0;
    while x < w
        invariant
            grid.wf(),
            g == grid@,
            w == g.width,
            y < g.height,
            x <= w,
            line@ == seq!['|'] + narrow_cells(g, y as int, x as nat),
        decreases w - x,
    {
        proof {
            reveal_strlit("|");
            reveal_strlit(" ");
            reveal_strlit("_");
        }
        let south = grid.is_carved((x, y), Direction::South);
        if south {
            line.append(" ");
        } else {
            line.append("_");
        }
        if grid.is_carved((x, y), Direction::East) {
            assert(x + 1 < w);
            if south || grid.is_carved((x + 1, y), Direction::South) {
                line.append(" ");
            } else {
                line.append("_");
            }
        } else {
            line.append("|");
        }
        x = x + 1;
        assert(line@ =~= seq!['|'] + narrow_cells(g, y as int, x as nat));
    }
    line.append("\n");
    line
}

impl Formatter<StringWrapper> for AsciiNarrow {
    open spec fn formats(&self, grid: GridView, out: StringWrapper) -> bool {
        out.0@ == narrow_text(grid)
    }

    open spec fn fits(&self, grid: GridView) -> bool {
        true
    }

    fn format(&self, grid: &Grid) -> (r: StringWrapper) {
        let ghost g = grid@;
        proof {
            reveal_strlit(" ");
            reveal_strlit(" \n");
        }
        let mut result = String::new();
        result.append(" ");
        let w = grid.width();
        let mut i: usize = 0;
        while i < w
            invariant
                i <= w,
                w == g.width,
                result@ == seq![' '] + repeated(seq!['_'], narrow_border(i as nat)),
            decreases w - i,
        {
            proof {
                reveal_strlit("_");
                reveal_strlit("__");
            }
            if i == 0 {
                result.append("_");
                assert(repeated(seq!['_'], 1) =~= seq!['_']) by {
                    reveal_with_fuel(repeated, 2);
                }
            } else {
                result.append("__");
                assert(repeated(seq!['_'], narrow_border((i + 1) as nat)) =~= repeated(
                    seq!['_'],
                    narrow_border(i as nat),
                ) + seq!['_', '_']) by {
                    reveal_with_fuel(repeated, 3);
                    assert(narrow_border((i + 1) as nat) == narrow_border(i as nat) + 2);
                    assert(repeated(seq!['_'], (narrow_border(i as nat) + 2) as nat) == repeated(
                        seq!['_'],
                        (narrow_border(i as nat) + 1) as nat,
                    ) + seq!['_']);
                }
            }
            i = i + 1;
            assert(result@ =~= seq![' '] + repeated(seq!['_'], narrow_border(i as nat)));
        }
        result.append(" \n");
        let h = grid.height();
        let mut y: usize = 0;
        while y < h
            invariant
                grid.wf(),
                g == grid@,
                h == g.height,
                y <= h,
                result@ == seq![' '] + repeated(seq!['_'], narrow_border(g.width)) + seq![' ', '\n']
                    + narrow_rows(g, y as nat),
            decreases h - y,
        {
            let line = narrow_row_text(grid, y);
            result.append(line.as_str());
            y = y + 1;
            assert(result@ =~= seq![' '] + repeated(seq!['_'], narrow_border(g.width)) + seq![' ', '\n']
                + narrow_rows(g, y as nat));
        }
        StringWrapper(result)
    }
}

fn broad_row_text(grid: &Grid, y: usize) -> (r: String)
    requires
        grid.wf(),
        y < grid@.height,
    ensures
        r@ == broad_row(grid@, y as int),
{
    let ghost g = grid@;
    proof {
        reveal_strlit("|");
        reveal_strlit("+");
        reveal_strlit("\n");
    }
    let mut top = String::new();
    let mut bottom = String::new();
    top.append("|");
    bottom.append("+");
    let w = grid.width();
    let mut x: usize = 0;
    while x < w
        invariant
            grid.wf(),
            g == grid@,
            w == g.width,
            y < g.height,
            x <= w,
            top@ == seq!['|'] + broad_top_cells(g, y as int, x as nat),
            bottom@ == seq!['+'] + broad_bottom_cells(g, y as int, x as nat),
        decreases w - x,
    {
        proof {
            reveal_strlit("|");
            reveal_strlit("   ");
            reveal_strlit(" ");
            reveal_strlit("   +");
            reveal_strlit("---+");
        }
        top.append("   ");
        if grid.is_carved((x, y), Direction::East) {
            top.append(" ");
        } else {
            top.append("|");
        }
        if grid.is_carved((x, y), Direction::South) {
            bottom.append("   +");
        } else {
            bottom.append("---+");
        }
        x = x + 1;
        assert(top@ =~= seq!['|'] + broad_top_cells(g, y as int, x as nat));
        assert(bottom@ =~= seq!['+'] + broad_bottom_cells(g, y as int, x as nat));
    }
    top.append("\n");
    top.append(bottom.as_str());
    top.append("\n");
    assert(top@ =~= broad_row(g, y as int));
    top
}

impl Formatter<StringWrapper> for AsciiBroad {
    open spec fn formats(&self, grid: GridView, out: StringWrapper) -> bool {
        out.0@ == broad_text(grid)
    }

    open spec fn fits(&self, grid: GridView) -> bool {
        true
    }

    fn format(&self, grid: &Grid) -> (r: StringWrapper) {
        let ghost g = grid@;
        proof {
            reveal_strlit("+");
            reveal_strlit("\n");
        }
        let mut output = String::new();
        output.append("+");
        let w = grid.width();
        let mut i: usize = 0;
        while i < w
            invariant
                i <= w,
                w == g.width,
                output@ == seq!['+'] + repeated(seq!['-', '-', '-', '+'], i as nat),
            decreases w - i,
        {
            proof {
                reveal_strlit("---+");
            }
            output.append("---+");
            i = i + 1;
            assert(output@ =~= seq!['+'] + repeated(seq!['-', '-', '-', '+'], i as nat));
        }
        output.append("\n");
        let ghost head = output@;
        if w > 0 {
            let h = grid.height();
            let mut y: usize = 0;
            while y < h
                invariant
                    grid.wf(),
                    g == grid@,
                    h == g.height,
                    y <= h,
                    output@ == head + broad_rows(g, y as nat),
                decreases h - y,
            {
                let rows = broad_row_text(grid, y);
                output.append(rows.as_str());
                y = y + 1;
                assert(output@ =~= head + broad_rows(g, y as nat));
            }
        }
        assert(output@ =~= broad_text(g));
        StringWrapper(output)
    }
}

} // verus!

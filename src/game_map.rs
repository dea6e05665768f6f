//! A character map of the maze for ray-casting games.

use vstd::prelude::*;
use crate::cell::Direction;
use crate::formatters::{Formatter, StringWrapper};
use crate::grid::{Grid, GridView};
use crate::rng::{any_rng, random_below};

verus! {

/// Draws every cell as a `span` by `span` block of passage characters, with
/// one wall character between neighboring blocks unless a passage joins them.
/// Optionally marks a start `S` in a cell of the top row and a goal `G` in a
/// cell of the bottom row, both picked at random.
#[derive(Clone, Copy, Debug)]
pub struct GameMap {
    pub span: usize,
    pub passage: char,
    pub wall: char,
    pub with_start_goal: bool,
}

/// The start and goal markers: `(start column, goal column)` in cells.
pub type Markers = Option<(usize, usize)>;

/// The number of map characters per cell along one axis, walls included.
pub open spec fn period(m: GameMap) -> int {
    m.span + 1
}

pub open spec fn map_columns(g: GridView, m: GameMap) -> int {
    g.width * period(m) + 1
}

pub open spec fn map_rows(g: GridView, m: GameMap) -> int {
    g.height * period(m) + 1
}

/// The map character at row `r`, column `c`, before markers.
pub open spec fn base_char(g: GridView, m: GameMap, r: int, c: int) -> char {
    let p = period(m);
    let (qr, rr, qc, rc) = (r / p, r % p, c / p, c % p);
    if rr == 0 && rc == 0 {
        m.wall
    } else if rr == 0 {
        if qr == 0 || qr == g.height {
            m.wall
        } else if g.carved((qc as usize, (qr - 1) as usize), Direction::South) {
            m.passage
        } else {
            m.wall
        }
    } else if rc == 0 {
        if qc == 0 || qc == g.width {
            m.wall
        } else if g.carved(((qc - 1) as usize, qr as usize), Direction::East) {
            m.passage
        } else {
            m.wall
        }
    } else {
        m.passage
    }
}

/// The map character at row `r`, column `c`: the start marker sits at the
/// top-left of its cell, the goal marker at the bottom-right of its cell.
pub open spec fn map_char(g: GridView, m: GameMap, markers: Markers, r: int, c: int) -> char {
    match markers {
        Some((s, t)) => if r == map_rows(g, m) - 2 && c == (t + 1) * period(m) - 1 {
            'G'
        } else if r == 1 && c == s * period(m) + 1 {
            'S'
        } else {
            base_char(g, m, r, c)
        },
        None => base_char(g, m, r, c),
    }
}

pub open spec fn map_row(g: GridView, m: GameMap, markers: Markers, r: int) -> Seq<char> {
    Seq::new(map_columns(g, m) as nat, |c: int| map_char(g, m, markers, r, c)).push('\n')
}

/// The first `n` rows of the map.
pub open spec fn map_rows_text(g: GridView, m: GameMap, markers: Markers, n: nat) -> Seq<char>
    decreases n,
{
    if n == 0 {
        seq![]
    } else {
        map_rows_text(g, m, markers, (n - 1) as nat) + map_row(g, m, markers, n - 1)
    }
}

pub open spec fn map_text(g: GridView, m: GameMap, markers: Markers) -> Seq<char> {
    map_rows_text(g, m, markers, map_rows(g, m) as nat)
}

/// Relies on `String::push`: appends one character.
#[verifier::external_body]
fn push_char(s: &mut String, c: char)
    ensures
        final(s)@ == old(s)@.push(c),
{
    s.push(c);
}

impl GameMap {
    /// Returns a map with blocks of two characters, `.` for passages, `#` for
    /// walls, and no markers.
    pub fn new() -> (r: GameMap)
        ensures
            r == (GameMap { span: 2, passage: '.', wall: '#', with_start_goal: false }),
    {
        GameMap { span: 2, passage: '.', wall: '#', with_start_goal: false }
    }

    pub fn span(self, span: usize) -> (r: GameMap)
        ensures
            r == (GameMap { span, ..self }),
    {
        GameMap { span, ..self }
    }

    pub fn passage(self, passage: char) -> (r: GameMap)
        ensures
            r == (GameMap { passage, ..self }),
    {
        GameMap { passage, ..self }
    }

    pub fn wall(self, wall: char) -> (r: GameMap)
        ensures
            r == (GameMap { wall, ..self }),
    {
        GameMap { wall, ..self }
    }

    pub fn with_start_goal(self) -> (r: GameMap)
        ensures
            r == (GameMap { with_start_goal: true, ..self }),
    {
        GameMap { with_start_goal: true, ..self }
    }

    /// Returns the map character at row `r`, column `c`.
    fn char_at(&self, grid: &Grid, markers: Markers, r: usize, c: usize) -> (ch: char)
        requires
            grid.wf(),
            self.span + 1 <= usize::MAX,
            map_rows(grid@, *self) <= usize::MAX,
            map_columns(grid@, *self) <= usize::MAX,
            r < map_rows(grid@, *self),
            c < map_columns(grid@, *self),
            match markers {
                Some((s, t)) => s < grid@.width && t < grid@.width,
                None => true,
            },
        ensures
            ch == map_char(grid@, *self, markers, r as int, c as int),
    {
        let g = Ghost(grid@);
        let p = self.span + 1;
        let w = grid.width();
        let h = grid.height();
        if let Some((s, t)) = markers {
            if t < w {
                proof {
                    assert((t + 1) * p <= w * p) by (nonlinear_arith)
                        requires
                            t < w,
                            p > 0,
                    ;
                }
                if r + 1 == h * p && c + 1 == (t + 1) * p {
                    return 'G';
                }
            }
            if s < w {
                proof {
                    assert(s * p + 1 <= w * p) by (nonlinear_arith)
                        requires
                            s < w,
                            p > 0,
                    ;
                }
                if r == 1 && c == s * p + 1 {
                    return 'S';
                }
            }
        }
        let (qr, rr, qc, rc) = (r / p, r % p, c / p, c % p);
        proof {
            assert(qr * p + rr == r && qc * p + rc == c) by (nonlinear_arith)
                requires
                    p > 0,
                    qr == r / p,
                    rr == r % p,
                    qc == c / p,
                    rc == c % p,
            ;
            assert(qr <= h && qc <= w) by (nonlinear_arith)
                requires
                    p > 0,
                    qr * p + rr == r,
                    qc * p + rc == c,
                    rr >= 0,
                    rc >= 0,
                    r < h * p + 1,
                    c < w * p + 1,
            ;
            assert(rr != 0 ==> qr < h) by (nonlinear_arith)
                requires
                    p > 0,
                    qr * p + rr == r,
                    r < h * p + 1,
                    qr <= h,
            ;
            assert(rc != 0 ==> qc < w) by (nonlinear_arith)
                requires
                    p > 0,
                    qc * p + rc == c,
                    c < w * p + 1,
                    qc <= w,
            ;
        }
        if rr == 0 && rc == 0 {
            self.wall
        } else if rr == 0 {
            if qr == 0 || qr == h {
                self.wall
            } else if grid.is_carved((qc, qr - 1), Direction::South) {
                self.passage
            } else {
                self.wall
            }
        } else if rc == 0 {
            if qc == 0 || qc == w {
                self.wall
            } else if grid.is_carved((qc - 1, qr), Direction::East) {
                self.passage
            } else {
                self.wall
            }
        } else {
            self.passage
        }
    }

    /// Returns the map of `grid` with the given markers.
    pub fn render(&self, grid: &Grid, markers: Markers) -> (r: String)
        requires
            grid.wf(),
            self.fits(grid@),
            match markers {
                Some((s, t)) => s < grid@.width && t < grid@.width,
                None => true,
            },
        ensures
            r@ == map_text(grid@, *self, markers),
    {
        let ghost g = grid@;
        proof {
            let p = self.span + 1;
            assert(g.height * p + 1 <= usize::MAX && g.width * p + 1 <= usize::MAX) by (nonlinear_arith)
                requires
                    (g.height * p + 1) * (g.width * p + 1 + 1) <= usize::MAX,
                    p >= 1,
            ;
        }
        let p = self.span + 1;
        let rows = grid.height() * p + 1;
        let cols = grid.width() * p + 1;
        let mut out = String::new();
        let mut r: usize = 0;
        while r < rows
            invariant
                grid.wf(),
                g == grid@,
                self.span + 1 <= usize::MAX,
                p == self.span + 1,
                rows == map_rows(g, *self),
                cols == map_columns(g, *self),
                r <= rows,
                match markers {
                    Some((s, t)) => s < g.width && t < g.width,
                    None => true,
                },
                out@ == map_rows_text(g, *self, markers, r as nat),
            decreases rows - r,
        {
            let mut c: usize = 0;
            let ghost head = out@;
            while c < cols
                invariant
                    grid.wf(),
                    g == grid@,
                    self.span + 1 <= usize::MAX,
                    map_rows(g, *self) <= usize::MAX,
                    map_columns(g, *self) <= usize::MAX,
                    rows == map_rows(g, *self),
                    cols == map_columns(g, *self),
                    r < rows,
                    c <= cols,
                    match markers {
                        Some((s, t)) => s < g.width && t < g.width,
                        None => true,
                    },
                    out@ == head + Seq::new(c as nat, |k: int| map_char(g, *self, markers, r as int, k)),
                decreases cols - c,
            {
                let ch = self.char_at(grid, markers, r, c);
                push_char(&mut out, ch);
                c = c + 1;
                assert(out@ =~= head + Seq::new(c as nat, |k: int| map_char(g, *self, markers, r as int, k)));
            }
            push_char(&mut out, '\n');
            r = r + 1;
            assert(out@ =~= map_rows_text(g, *self, markers, r as nat));
        }
        out
    }
}

impl Formatter<StringWrapper> for GameMap {
    /// Without markers the map is fixed by the grid; with them, it is the map
    /// with a start in some cell of the top row and a goal in some cell of the
    /// bottom row.
    open spec fn formats(&self, grid: GridView, out: StringWrapper) -> bool {
        if self.with_start_goal && grid.width > 0 {
            exists|s: usize, t: usize| s < grid.width && t < grid.width && out.0@ == map_text(grid, *self, Some((s, t)))
        } else {
            out.0@ == map_text(grid, *self, None)
        }
    }

    /// The map's rows and columns, and all its characters, can be counted.
    open spec fn fits(&self, grid: GridView) -> bool {
        &&& self.span + 1 <= usize::MAX
        &&& map_rows(grid, *self) * (map_columns(grid, *self) + 1) <= usize::MAX
    }

    fn format(&self, grid: &Grid) -> (r: StringWrapper) {
        let w = grid.width();
        if self.with_start_goal && w > 0 {
            let mut rng = any_rng();
            let s = random_below(&mut rng, w);
            let t = random_below(&mut rng, w);
            let text = self.render(grid, Some((s, t)));
            StringWrapper(text)
        } else {
            StringWrapper(self.render(grid, None))
        }
    }
}

} // verus!

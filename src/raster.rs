//! A raster drawing of the maze, as RGB bytes.

use vstd::prelude::*;
use crate::cell::Direction;
use crate::formatters::Formatter;
use crate::grid::{Grid, GridView};

verus! {

/// A color given by its red, green and blue channels.
#[derive(Clone, Copy, Debug, PartialEq, Eq, Structural)]
pub enum Color {
    RGB(u8, u8, u8),
}

/// Why a text is no hex color.
#[derive(Clone, Debug)]
pub enum ParseHexError {
    /// A character is no hex digit.
    InvalidDigit,
    /// The text without its `#` does not have six characters; it is carried here.
    Length(String),
}

/// The text as `{:?}` prints it: in double quotes, with quotes, backslashes and
/// control characters escaped.
pub uninterp spec fn debug_text(s: Seq<char>) -> Seq<char>;

/// Relies on std's `Debug` for `str`, through `format!("{:?}")`: the quoted,
/// escaped text, which depends on the text alone.
#[verifier::external_body]
fn debug_quoted(s: &str) -> (r: String)
    ensures
        r@ == debug_text(s@),
{
    format!("{:?}", s)
}

impl ParseHexError {
    /// Returns the message shown for this error.
    pub fn to_string(&self) -> (r: String)
        ensures
            r@ == (match self {
                ParseHexError::InvalidDigit => "invalid digit found in string"@,
                ParseHexError::Length(t) => "Expected a 6 character color value in hex, but got: "@ + debug_text(t@),
            }),
    {
        match self {
            ParseHexError::InvalidDigit => String::from_str("invalid digit found in string"),
            ParseHexError::Length(t) => {
                let mut s = String::from_str("Expected a 6 character color value in hex, but got: ");
                let quoted = debug_quoted(t.as_str());
                s.append(quoted.as_str());
                s
            },
        }
    }
}

/// The value of a hex digit, in either case.
pub open spec fn hex_digit(c: char) -> Option<u8> {
    let v = c as u32;
    if 48 <= v <= 57 {
        Some((v - 48) as u8)
    } else if 97 <= v <= 102 {
        Some((v - 87) as u8)
    } else if 65 <= v <= 70 {
        Some((v - 55) as u8)
    } else {
        None
    }
}

/// The text without one leading `#`.
pub open spec fn without_hash(s: Seq<char>) -> Seq<char> {
    if s.len() > 0 && s[0] == '#' {
        s.drop_first()
    } else {
        s
    }
}

/// The byte written by the two hex digits at `i` and `i + 1`.
pub open spec fn hex_byte(t: Seq<char>, i: int) -> u8 {
    (16 * hex_digit(t[i]).unwrap() + hex_digit(t[i + 1]).unwrap()) as u8
}

/// The color written as six hex digits, with or without a leading `#`.
pub open spec fn hex_color(s: Seq<char>) -> Option<Color> {
    let t = without_hash(s);
    if t.len() == 6 && forall|i: int| 0 <= i < 6 ==> (#[trigger] hex_digit(t[i])) is Some {
        Some(Color::RGB(hex_byte(t, 0), hex_byte(t, 2), hex_byte(t, 4)))
    } else {
        None
    }
}

/// Returns the value of hex digit `c`, or `None`.
pub fn hex_digit_value(c: char) -> (r: Option<u8>)
    ensures
        r == hex_digit(c),
{
    let v = c as u32;
    if 48 <= v && v <= 57 {
        Some((v - 48) as u8)
    } else if 97 <= v && v <= 102 {
        Some((v - 87) as u8)
    } else if 65 <= v && v <= 70 {
        Some((v - 55) as u8)
    } else {
        None
    }
}

/// Reads a color written as six hex digits, with or without a leading `#`.
pub fn hex_to_rgb(s: &str) -> (r: Result<Color, ParseHexError>)
    ensures
        r matches Ok(c) ==> hex_color(s@) == Some(c),
        r is Err <==> hex_color(s@) is None,
        (r matches Err(ParseHexError::Length(_))) <==> without_hash(s@).len() != 6,
        r matches Err(ParseHexError::Length(t)) ==> t@ == without_hash(s@),
{
    let n = s.unicode_len();
    let t = if n > 0 && s.get_char(0) == '#' {
        s.substring_char(1, n)
    } else {
        s.substring_char(0, n)
    };
    proof {
        assert(t@ =~= without_hash(s@));
    }
    if t.unicode_len() != 6 {
        return Err(ParseHexError::Length(t.to_string()));
    }
    let mut digits: Vec<u8> = Vec::new();
    let mut i: usize = 0;
    while i < 6
        invariant
            t@.len() == 6,
            t@ == without_hash(s@),
            i <= 6,
            digits@.len() == i,
            forall|k: int| 0 <= k < i ==> hex_digit(t@[k]) == Some(#[trigger] digits@[k]),
        decreases 6 - i,
    {
        match hex_digit_value(t.get_char(i)) {
            Some(d) => digits.push(d),
            None => {
                proof {
                    assert(hex_digit(t@[i as int]) is None);
                }
                return Err(ParseHexError::InvalidDigit);
            },
        }
        i = i + 1;
    }
    proof {
        assert forall|k: int| 0 <= k < 6 implies (#[trigger] hex_digit(t@[k])) is Some by {
            assert(hex_digit(t@[k]) == Some(digits@[k]));
        }
    }
    Ok(Color::RGB(16 * digits[0] + digits[1], 16 * digits[2] + digits[3], 16 * digits[4] + digits[5]))
}

/// Draws walls `wall` pixels thick in the foreground color and cells `passage`
/// pixels wide in the background color, inside a background margin of
/// `margin` pixels.
#[derive(Clone, Copy, Debug)]
pub struct Image {
    pub wall: usize,
    pub passage: usize,
    pub margin: usize,
    pub background: Color,
    pub foreground: Color,
}

/// An RGB picture: `width * height` pixels in row-major order, three bytes each.
#[derive(Clone, Debug)]
pub struct Raster {
    pub width: usize,
    pub height: usize,
    pub pixels: Vec<u8>,
}

/// Pixels per cell along one axis, counting the wall before it.
pub open spec fn cell_pitch(im: Image) -> int {
    im.passage + im.wall
}

pub open spec fn inner_width(g: GridView, im: Image) -> int {
    g.width * cell_pitch(im) + im.wall
}

pub open spec fn inner_height(g: GridView, im: Image) -> int {
    g.height * cell_pitch(im) + im.wall
}

pub open spec fn image_width(g: GridView, im: Image) -> int {
    2 * im.margin + inner_width(g, im)
}

pub open spec fn image_height(g: GridView, im: Image) -> int {
    2 * im.margin + inner_height(g, im)
}

/// Whether pixel `(px, py)` is drawn in the foreground color.
pub open spec fn pixel_is_wall(g: GridView, im: Image, px: int, py: int) -> bool {
    let q = cell_pitch(im);
    if px < im.margin || py < im.margin || px >= im.margin + inner_width(g, im) || py >= im.margin
        + inner_height(g, im) {
        false
    } else {
        let (lx, ly) = (px - im.margin, py - im.margin);
        let (ix, ox, iy, oy) = (lx / q, lx % q, ly / q, ly % q);
        if ox < im.wall && oy < im.wall {
            true
        } else if ox < im.wall {
            ix == 0 || ix == g.width || !g.carved(((ix - 1) as usize, iy as usize), Direction::East)
        } else if oy < im.wall {
            iy == 0 || iy == g.height || !g.carved((ix as usize, (iy - 1) as usize), Direction::South)
        } else {
            false
        }
    }
}

pub open spec fn color_bytes(c: Color) -> Seq<u8> {
    match c {
        Color::RGB(r, g, b) => seq![r, g, b],
    }
}

pub open spec fn pixel_bytes(g: GridView, im: Image, px: int, py: int) -> Seq<u8> {
    if pixel_is_wall(g, im, px, py) {
        color_bytes(im.foreground)
    } else {
        color_bytes(im.background)
    }
}

/// The first `n` pixels of row `py`.
pub open spec fn raster_row(g: GridView, im: Image, py: int, n: nat) -> Seq<u8>
    decreases n,
{
    if n == 0 {
        seq![]
    } else {
        raster_row(g, im, py, (n - 1) as nat) + pixel_bytes(g, im, n - 1, py)
    }
}

/// The first `n` rows of the picture.
pub open spec fn raster_rows(g: GridView, im: Image, n: nat) -> Seq<u8>
    decreases n,
{
    if n == 0 {
        seq![]
    } else {
        raster_rows(g, im, (n - 1) as nat) + raster_row(g, im, n - 1, image_width(g, im) as nat)
    }
}

impl Image {
    /// Returns walls and passages 40 pixels wide, a 50 pixel margin, black walls
    /// and a white background.
    pub fn new() -> (r: Image)
        ensures
            r == (Image {
                wall: 40,
                passage: 40,
                margin: 50,
                background: Color::RGB(255, 255, 255),
                foreground: Color::RGB(0, 0, 0),
            }),
    {
        Image {
            wall: 40,
            passage: 40,
            margin: 50,
            background: Color::RGB(255, 255, 255),
            foreground: Color::RGB(0, 0, 0),
        }
    }

    pub fn wall(self, wall: usize) -> (r: Image)
        ensures
            r == (Image { wall, ..self }),
    {
        Image { wall, ..self }
    }

    pub fn passage(self, passage: usize) -> (r: Image)
        ensures
            r == (Image { passage, ..self }),
    {
        Image { passage, ..self }
    }

    pub fn margin(self, margin: usize) -> (r: Image)
        ensures
            r == (Image { margin, ..self }),
    {
        Image { margin, ..self }
    }

    pub fn background(self, background: Color) -> (r: Image)
        ensures
            r == (Image { background, ..self }),
    {
        Image { background, ..self }
    }

    pub fn foreground(self, foreground: Color) -> (r: Image)
        ensures
            r == (Image { foreground, ..self }),
    {
        Image { foreground, ..self }
    }

    /// Whether pixel `(px, py)` is drawn in the foreground color.
    fn is_wall_pixel(&self, grid: &Grid, px: usize, py: usize) -> (r: bool)
        requires
            grid.wf(),
            self.fits(grid@),
        ensures
            r == pixel_is_wall(grid@, *self, px as int, py as int),
    {
        let ghost g = grid@;
        let q = self.passage + self.wall;
        let iw = grid.width() * q + self.wall;
        let ih = grid.height() * q + self.wall;
        if px < self.margin || py < self.margin || px - self.margin >= iw || py - self.margin >= ih {
            return false;
        }
        let lx = px - self.margin;
        let ly = py - self.margin;
        let w = grid.width();
        let h = grid.height();
        if q == 0 {
            proof {
                assert(iw == 0) by (nonlinear_arith)
                    requires
                        q == 0,
                        self.wall == 0,
                        iw == w * q + self.wall,
                ;
            }
            return false;
        }
        let (ix, ox, iy, oy) = (lx / q, lx % q, ly / q, ly % q);
        proof {
            assert(ix * q + ox == lx && iy * q + oy == ly && 0 <= ox < q && 0 <= oy < q) by (nonlinear_arith)
                requires
                    q > 0,
                    ix == lx / q,
                    ox == lx % q,
                    iy == ly / q,
                    oy == ly % q,
            ;
            assert(ix <= w && iy <= h) by (nonlinear_arith)
                requires
                    q > 0,
                    ix * q + ox == lx,
                    iy * q + oy == ly,
                    ox >= 0,
                    oy >= 0,
                    lx < w * q + self.wall,
                    ly < h * q + self.wall,
                    self.wall <= q,
            ;
            assert(ox >= self.wall ==> ix < w) by (nonlinear_arith)
                requires
                    q > 0,
                    ix * q + ox == lx,
                    lx < w * q + self.wall,
                    ix <= w,
            ;
            assert(oy >= self.wall ==> iy < h) by (nonlinear_arith)
                requires
                    q > 0,
                    iy * q + oy == ly,
                    ly < h * q + self.wall,
                    iy <= h,
            ;
        }
        if ox < self.wall && oy < self.wall {
            true
        } else if ox < self.wall {
            ix == 0 || ix == w || !grid.is_carved((ix - 1, iy), Direction::East)
        } else if oy < self.wall {
            iy == 0 || iy == h || !grid.is_carved((ix, iy - 1), Direction::South)
        } else {
            false
        }
    }
}

fn push_color(pixels: &mut Vec<u8>, c: Color)
    ensures
        final(pixels)@ == old(pixels)@ + color_bytes(c),
{
    match c {
        Color::RGB(r, g, b) => {
            pixels.push(r);
            pixels.push(g);
            pixels.push(b);
        },
    }
}

impl Formatter<Raster> for Image {
    open spec fn formats(&self, grid: GridView, out: Raster) -> bool {
        &&& out.width == image_width(grid, *self)
        &&& out.height == image_height(grid, *self)
        &&& out.pixels@ == raster_rows(grid, *self, image_height(grid, *self) as nat)
    }

    /// The picture's sizes and its bytes can be counted.
    open spec fn fits(&self, grid: GridView) -> bool {
        &&& cell_pitch(*self) <= u32::MAX
        &&& image_width(grid, *self) <= u32::MAX
        &&& image_height(grid, *self) <= u32::MAX
        &&& 3 * image_width(grid, *self) * image_height(grid, *self) <= usize::MAX
    }

    fn format(&self, grid: &Grid) -> (r: Raster) {
        let ghost g = grid@;
        let width = 2 * self.margin + grid.width() * (self.passage + self.wall) + self.wall;
        let height = 2 * self.margin + grid.height() * (self.passage + self.wall) + self.wall;
        let mut pixels: Vec<u8> = Vec::new();
        let mut py: usize = 0;
        while py < height
            invariant
                grid.wf(),
                g == grid@,
                self.fits(g),
                width == image_width(g, *self),
                height == image_height(g, *self),
                py <= height,
                pixels@ == raster_rows(g, *self, py as nat),
            decreases height - py,
        {
            let ghost head = pixels@;
            let mut px: usize = 0;
            while px < width
                invariant
                    grid.wf(),
                    g == grid@,
                    self.fits(g),
                    width == image_width(g, *self),
                    height == image_height(g, *self),
                    py < height,
                    px <= width,
                    pixels@ == head + raster_row(g, *self, py as int, px as nat),
                decreases width - px,
            {
                if self.is_wall_pixel(grid, px, py) {
                    push_color(&mut pixels, self.foreground);
                } else {
                    push_color(&mut pixels, self.background);
                }
                px = px + 1;
                assert(pixels@ =~= head + raster_row(g, *self, py as int, px as nat));
            }
            py = py + 1;
            assert(pixels@ =~= raster_rows(g, *self, py as nat));
        }
        Raster { width, height, pixels }
    }
}

} // verus!

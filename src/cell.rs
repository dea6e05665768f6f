//! The wall state of one grid position.

use vstd::prelude::*;

verus! {

/// The passages carved out of one cell, as four independent flags.
///
/// A set flag means a passage is open in that direction. Single-flag values
/// (`NORTH`, `SOUTH`, `EAST`, `WEST`) are also used to name directions.
#[derive(Clone, Copy, Debug, PartialEq, Eq, Hash, Structural)]
pub struct Cell {
    pub bits: u8,
}

/// One of the four sides of a cell.
#[derive(Clone, Copy, Debug, PartialEq, Eq, Hash, Structural)]
pub enum Direction {
    North,
    South,
    East,
    West,
}

/// The flag that marks an open passage toward `d`.
pub open spec fn bit_of(d: Direction) -> u8 {
    match d {
        Direction::North => 1,
        Direction::South => 2,
        Direction::East => 4,
        Direction::West => 8,
    }
}

/// The direction pointing back the way `d` points.
pub open spec fn opposite_of(d: Direction) -> Direction {
    match d {
        Direction::North => Direction::South,
        Direction::South => Direction::North,
        Direction::East => Direction::West,
        Direction::West => Direction::East,
    }
}

impl Direction {
    /// Returns the flag that marks an open passage toward `self`.
    pub fn bit(self) -> (r: u8)
        ensures
            r == bit_of(self),
    {
        match self {
            Direction::North => 1,
            Direction::South => 2,
            Direction::East => 4,
            Direction::West => 8,
        }
    }

    /// Returns the direction pointing back the way `self` points.
    pub fn opposite(self) -> (r: Direction)
        ensures
            r == opposite_of(self),
    {
        match self {
            Direction::North => Direction::South,
            Direction::South => Direction::North,
            Direction::East => Direction::West,
            Direction::West => Direction::East,
        }
    }
}

proof fn lemma_flag_union(b: u8, d: u8, e: u8)
    by (bit_vector)
    requires
        d == 1 || d == 2 || d == 4 || d == 8,
        e == 1 || e == 2 || e == 4 || e == 8,
    ensures
        ((b | d) & e != 0) == (e == d || b & e != 0),
        (b | d) & 0xf0 == b & 0xf0,
{
}

impl Cell {
    /// Whether the passage toward `d` is open.
    pub open spec fn has(self, d: Direction) -> bool {
        self.bits & bit_of(d) != 0
    }

    /// Whether the cell holds only the four direction flags.
    pub open spec fn is_well_formed(self) -> bool {
        self.bits & 0xf0 == 0
    }

    /// The number of open passages among the four directions.
    pub open spec fn passages(self) -> int {
        (if self.bits & 1 != 0 { 1int } else { 0 }) + (if self.bits & 2 != 0 { 1int } else { 0 })
            + (if self.bits & 4 != 0 { 1int } else { 0 }) + (if self.bits & 8 != 0 { 1int } else { 0 })
    }

    /// The cell with the passage toward `d` opened as well.
    pub open spec fn with(self, d: Direction) -> Cell {
        Cell { bits: self.bits | bit_of(d) }
    }

    /// Opening one passage leaves the other flags as they were.
    pub proof fn lemma_with(self, d: Direction, e: Direction)
        ensures
            self.with(d).has(e) == (e == d || self.has(e)),
            self.with(d).is_well_formed() == self.is_well_formed(),
    {
        lemma_flag_union(self.bits, bit_of(d), bit_of(e));
    }

    /// Opening a passage that was closed adds one open side.
    pub proof fn lemma_with_passages(self, d: Direction)
        requires
            !self.has(d),
        ensures
            self.with(d).passages() == self.passages() + 1,
    {
        self.lemma_with(d, Direction::North);
        self.lemma_with(d, Direction::South);
        self.lemma_with(d, Direction::East);
        self.lemma_with(d, Direction::West);
    }

    /// Returns the cell whose flags are `bits`, or `None` when `bits` sets
    /// anything besides the four direction flags.
    pub fn from_bits(bits: u8) -> (r: Option<Cell>)
        ensures
            r == (if bits < 16 { Some(Cell { bits }) } else { None::<Cell> }),
    {
        if bits < 16 {
            Some(Cell { bits })
        } else {
            None
        }
    }

    /// Returns the raw flags.
    pub fn bits(&self) -> (r: u8)
        ensures
            r == self.bits,
    {
        self.bits
    }

    /// Returns the cell holding the flags of both `self` and `other`.
    pub fn union(self, other: Cell) -> (r: Cell)
        ensures
            r.bits == self.bits | other.bits,
    {
        Cell { bits: self.bits | other.bits }
    }

    /// Whether every flag of `other` is set in `self`.
    pub fn contains(&self, other: Cell) -> (r: bool)
        ensures
            r == (self.bits & other.bits == other.bits),
    {
        self.bits & other.bits == other.bits
    }

    /// Whether no flag is set.
    pub fn is_empty(&self) -> (r: bool)
        ensures
            r == (self.bits == 0),
    {
        self.bits == 0
    }

    /// Returns the number of closed sides: four minus the open passages.
    pub fn walls_count(&self) -> (r: usize)
        ensures
            r == 4 - self.passages(),
    {
        let mut open: usize = 0;
        if self.bits & 1 != 0 {
            open = open + 1;
        }
        if self.bits & 2 != 0 {
            open = open + 1;
        }
        if self.bits & 4 != 0 {
            open = open + 1;
        }
        if self.bits & 8 != 0 {
            open = open + 1;
        }
        4 - open
    }

    /// Whether the cell is a dead end: exactly three closed sides.
    pub fn is_end(&self) -> (r: bool)
        ensures
            r == (self.passages() == 1),
    {
        self.walls_count() == 3
    }

    /// Returns the cell with no passage open.
    pub fn empty() -> (r: Cell)
        ensures
            r.bits == 0,
    {
        Cell { bits: 0 }
    }

    /// Returns the cell whose only open passage leads toward `d`.
    pub fn from_direction(d: Direction) -> (r: Cell)
        ensures
            r.bits == bit_of(d),
    {
        Cell { bits: d.bit() }
    }

    /// Whether the passage toward `d` is open.
    pub fn is_open(&self, d: Direction) -> (r: bool)
        ensures
            r == self.has(d),
    {
        self.bits & d.bit() != 0
    }
}

} // verus!

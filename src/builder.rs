//! Step-by-step configuration of a maze build.

use vstd::prelude::*;
use crate::algorithms::{algorithm_name, is_blank, Algorithm};
use crate::validate::fully_connected;
use crate::errors::{no_entropy_reason, BuildError};
use crate::grid::{open_sides, Coords};
use crate::maze::OrthogonalMaze;
use crate::rng::{entropy_rng, seeded_rng};

verus! {

/// The options a builder holds.
pub ghost struct BuilderView {
    pub width: nat,
    pub height: nat,
    pub algorithm: Algorithm,
    pub start_coords: Option<Coords>,
    pub seed: Option<u64>,
}

/// Whether the options ask for a start cell that the algorithm cannot take.
pub open spec fn start_refused(b: BuilderView) -> bool {
    b.start_coords is Some && !b.algorithm.supports_start()
}

/// The message carried by the error of a refused start cell.
pub open spec fn start_refused_reason(a: Algorithm) -> Seq<char> {
    "Algorithm `"@ + algorithm_name(a) + "` doesn't support `start_coords`"@
}

/// Collects the options of one maze and builds it.
pub struct OrthogonalMazeBuilder {
    width: usize,
    height: usize,
    algorithm: Algorithm,
    start_coords: Option<Coords>,
    seed: Option<u64>,
}

impl View for OrthogonalMazeBuilder {
    type V = BuilderView;

    closed spec fn view(&self) -> BuilderView {
        BuilderView {
            width: self.width as nat,
            height: self.height as nat,
            algorithm: self.algorithm,
            start_coords: self.start_coords,
            seed: self.seed,
        }
    }
}

impl OrthogonalMazeBuilder {
    /// Returns a builder for a 10 by 10 maze by recursive backtracking, with no
    /// start cell and no seed.
    pub fn new() -> (r: Self)
        ensures
            r@ == (BuilderView {
                width: 10,
                height: 10,
                algorithm: Algorithm::RecursiveBacktracking,
                start_coords: None,
                seed: None,
            }),
    {
        OrthogonalMazeBuilder {
            width: 10,
            height: 10,
            algorithm: Algorithm::RecursiveBacktracking,
            start_coords: None,
            seed: None,
        }
    }

    /// Sets the seed; with one, the same options build the same maze.
    pub fn seed(self, seed: Option<u64>) -> (r: Self)
        ensures
            r@ == (BuilderView { seed, ..self@ }),
    {
        OrthogonalMazeBuilder { seed, ..self }
    }

    pub fn width(self, width: usize) -> (r: Self)
        ensures
            r@ == (BuilderView { width: width as nat, ..self@ }),
    {
        OrthogonalMazeBuilder { width, ..self }
    }

    pub fn height(self, height: usize) -> (r: Self)
        ensures
            r@ == (BuilderView { height: height as nat, ..self@ }),
    {
        OrthogonalMazeBuilder { height, ..self }
    }

    pub fn algorithm(self, algorithm: Algorithm) -> (r: Self)
        ensures
            r@ == (BuilderView { algorithm, ..self@ }),
    {
        OrthogonalMazeBuilder { algorithm, ..self }
    }

    /// Sets the cell the algorithm starts from.
    pub fn start_coords(self, coords: Coords) -> (r: Self)
        ensures
            r@ == (BuilderView { start_coords: Some(coords), ..self@ }),
    {
        OrthogonalMazeBuilder { start_coords: Some(coords), ..self }
    }

    /// Builds the maze. Fails, before any cell is carved, when a start cell is
    /// given to an algorithm that takes none, or when no seed was given and the
    /// system has no entropy to seed the generator.
    pub fn build(self) -> (r: Result<OrthogonalMaze, BuildError>)
        requires
            self@.width * self@.height <= usize::MAX,
            self@.start_coords matches Some(c) ==> start_refused(self@) || (c.0 < self@.width && c.1
                < self@.height),
        ensures
            start_refused(self@) ==> (r matches Err(e) && e.reason@ == start_refused_reason(self@.algorithm)),
            r is Err ==> start_refused(self@) || self@.seed is None,
            !start_refused(self@) ==> (r matches Err(e) ==> e.reason@ == no_entropy_reason()),
            self@.seed is Some && !start_refused(self@) ==> r is Ok,
            r matches Ok(m) ==> m.wf() && m@.width == self@.width && m@.height == self@.height && m@.symmetric(),
            r matches Ok(m) ==> (self@.width * self@.height > 0 ==> fully_connected(m@)),
            r matches Ok(m) ==> ((self@.algorithm is RecursiveBacktracking || self@.algorithm is GrowingTree
                || self@.algorithm is HuntAndKill || self@.algorithm is Prim || self@.algorithm is Kruskal
                || self@.algorithm is BinaryTree || self@.algorithm is Sidewinder
                || self@.algorithm is RecursiveDivision)
                && self@.width * self@.height >= 2 ==> open_sides(m@.cells) == 2 * (self@.width * self@.height - 1)),
    {
        let mut maze = OrthogonalMaze::new(self.width, self.height);
        if self.start_coords.is_some() && !self.algorithm.has_start_coords() {
            return Err(BuildError::no_start_coords(self.algorithm.name()));
        }
        let mut rng = match self.seed {
            Some(seed) => seeded_rng(seed),
            None => match entropy_rng() {
                Some(rng) => rng,
                None => {
                    return Err(BuildError::no_entropy());
                },
            },
        };
        {
            proof {
                assert(is_blank(maze@));
            }
            let grid = maze.get_grid_mut();
            self.algorithm.generate(grid, self.start_coords, &mut rng);
            proof {
                maze.lemma_wf();
            }
            Ok(maze)
        }
    }
}

impl Default for OrthogonalMazeBuilder {
    fn default() -> (r: Self)
        ensures
            r@ == (BuilderView {
                width: 10,
                height: 10,
                algorithm: Algorithm::RecursiveBacktracking,
                start_coords: None,
                seed: None,
            }),
    {
        Self::new()
    }
}

} // verus!

use rand::SeedableRng;
use knossos::{Algorithm, Bias, Direction, Method, OrthogonalMaze, OrthogonalMazeBuilder};

fn all_algorithms() -> Vec<Algorithm> {
    vec![
        Algorithm::RecursiveBacktracking,
        Algorithm::BinaryTree(Bias::NorthEast),
        Algorithm::BinaryTree(Bias::NorthWest),
        Algorithm::BinaryTree(Bias::SouthEast),
        Algorithm::BinaryTree(Bias::SouthWest),
        Algorithm::Eller,
        Algorithm::GrowingTree(Method::Newest),
        Algorithm::GrowingTree(Method::Random),
        Algorithm::HuntAndKill,
        Algorithm::Kruskal,
        Algorithm::Prim,
        Algorithm::RecursiveDivision,
        Algorithm::Sidewinder,
    ]
}

fn is_symmetric(maze: &OrthogonalMaze) -> bool {
    let grid = maze.grid();
    let dirs = [Direction::North, Direction::South, Direction::East, Direction::West];
    for y in 0..maze.height() {
        for x in 0..maze.width() {
            for d in dirs {
                let carved = grid.is_carved((x, y), d);
                match grid.get_next_cell_coords((x, y), d) {
                    Ok(n) => {
                        if carved != grid.is_carved(n, d.opposite()) {
                            return false;
                        }
                    }
                    Err(_) => {
                        if carved {
                            return false;
                        }
                    }
                }
            }
        }
    }
    true
}

#[test]
fn build() {
    let maze = OrthogonalMazeBuilder::default().build().unwrap();
    assert!(maze.is_valid());
}

#[test]
fn no_start_coord_support() {
    let maze_err = OrthogonalMazeBuilder::default()
        .start_coords((3, 3))
        .algorithm(Algorithm::RecursiveDivision)
        .build()
        .unwrap_err();
    assert_eq!(
        maze_err.to_string(),
        "Cannot build maze. Reason: Algorithm `RecursiveDivision` doesn't support `start_coords`"
    );
}

#[test]
fn sidewinder_refuses_start_coords() {
    let err = OrthogonalMazeBuilder::new()
        .start_coords((0, 0))
        .algorithm(Algorithm::Sidewinder)
        .build()
        .unwrap_err();
    assert_eq!(err.reason, "Algorithm `Sidewinder` doesn't support `start_coords`");
}

#[test]
fn recursive_backtracking_takes_start_coords() {
    let maze = OrthogonalMazeBuilder::new()
        .start_coords((4, 7))
        .width(6)
        .height(9)
        .build()
        .unwrap();
    assert_eq!(maze.width(), 6);
    assert_eq!(maze.height(), 9);
    assert!(maze.is_valid());
}

#[test]
fn every_algorithm_builds_valid_mazes() {
    for algorithm in all_algorithms() {
        for (w, h) in [(1, 1), (1, 5), (5, 1), (2, 2), (7, 4), (10, 10), (13, 21)] {
            for seed in 0..5u64 {
                let maze = OrthogonalMazeBuilder::new()
                    .width(w)
                    .height(h)
                    .algorithm(algorithm)
                    .seed(Some(seed))
                    .build()
                    .unwrap();
                assert!(maze.is_valid(), "{:?} {}x{} seed {}", algorithm, w, h, seed);
                assert!(is_symmetric(&maze));
            }
        }
    }
}

#[test]
fn same_seed_builds_same_maze() {
    for algorithm in all_algorithms() {
        let build = || {
            OrthogonalMazeBuilder::new()
                .width(12)
                .height(8)
                .algorithm(algorithm)
                .seed(Some(40))
                .build()
                .unwrap()
        };
        assert_eq!(build(), build());
    }
}

#[test]
fn unseeded_builds_are_valid() {
    let maze = OrthogonalMazeBuilder::new().width(15).height(3).build().unwrap();
    assert!(maze.is_valid());
}

#[test]
fn algorithm_names() {
    assert_eq!(Algorithm::RecursiveBacktracking.name(), "RecursiveBacktracking");
    assert_eq!(Algorithm::Sidewinder.name(), "Sidewinder");
    assert!(Algorithm::RecursiveBacktracking.has_start_coords());
    assert!(!Algorithm::BinaryTree(Bias::NorthEast).has_start_coords());
}

#[test]
fn growing_tree_methods_build_valid_mazes() {
    for method in [Method::Newest, Method::Oldest, Method::Middle, Method::Random] {
        for (w, h) in [(1, 1), (1, 6), (6, 1), (5, 5), (9, 4)] {
            let maze = OrthogonalMazeBuilder::new()
                .width(w)
                .height(h)
                .algorithm(Algorithm::GrowingTree(method))
                .start_coords((w - 1, h - 1))
                .seed(Some(11))
                .build()
                .unwrap();
            assert!(maze.is_valid());
            assert!(is_symmetric(&maze));
        }
    }
}

#[test]
fn hunt_and_kill_from_a_corner() {
    let maze = OrthogonalMazeBuilder::new()
        .width(11)
        .height(7)
        .algorithm(Algorithm::HuntAndKill)
        .start_coords((10, 6))
        .build()
        .unwrap();
    assert!(maze.is_valid());
    assert!(is_symmetric(&maze));
    assert!(Algorithm::HuntAndKill.has_start_coords());
}

#[test]
fn large_mazes_are_valid() {
    for algorithm in all_algorithms() {
        let maze = OrthogonalMazeBuilder::new()
            .width(60)
            .height(40)
            .algorithm(algorithm)
            .seed(Some(2024))
            .build()
            .unwrap();
        assert!(maze.is_valid(), "{:?}", algorithm);
        assert_eq!(maze.ends().iter().filter(|(_, c)| c.walls_count() == 3).count(), maze.ends().len());
    }
}

#[test]
fn start_coords_refused_by_every_algorithm_without_them() {
    for algorithm in all_algorithms() {
        let result = OrthogonalMazeBuilder::new().start_coords((1, 1)).algorithm(algorithm).build();
        assert_eq!(result.is_err(), !algorithm.has_start_coords(), "{:?}", algorithm);
        if let Err(e) = result {
            assert!(e.to_string().contains(algorithm.name()));
        }
    }
}

#[test]
fn tree_algorithms_leave_one_passage_fewer_than_cells() {
    for algorithm in all_algorithms() {
        for (w, h) in [(1, 2), (2, 2), (7, 5), (12, 9)] {
            let maze = OrthogonalMazeBuilder::new()
                .width(w)
                .height(h)
                .algorithm(algorithm)
                .seed(Some(9))
                .build()
                .unwrap();
            let open: usize = maze.grid().cells_ref().iter().map(|c| 4 - c.walls_count()).sum();
            assert_eq!(open, 2 * (w * h - 1), "{:?} {}x{}", algorithm, w, h);
        }
    }
}

#[test]
fn aldous_broder_walk_builds_valid_mazes() {
    for (w, h, start) in [(2, 1, (0, 0)), (5, 4, (2, 3)), (9, 9, (0, 0))] {
        let mut rng = rand::rngs::StdRng::seed_from_u64(17);
        let mut maze = OrthogonalMaze::new(w, h);
        {
            let grid = maze.get_grid_mut();
            let mut current = start;
            while !knossos::all_visited(grid) {
                let next = knossos::aldous_broder_step(grid, current, &mut rng);
                assert!(next.0.abs_diff(current.0) + next.1.abs_diff(current.1) == 1);
                current = next;
            }
        }
        assert!(maze.is_valid());
        assert!(is_symmetric(&maze));
        let open: usize = maze.grid().cells_ref().iter().map(|c| 4 - c.walls_count()).sum();
        assert_eq!(open, 2 * (w * h - 1));
    }
}

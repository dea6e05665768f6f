use knossos::{Cell, Direction, Grid, OrthogonalMaze};

fn cell_of(dirs: &[Direction]) -> Cell {
    let mut cell = Cell::empty();
    for d in dirs {
        cell = cell.union(Cell::from_direction(*d));
    }
    cell
}

fn carve(grid: &mut Grid, coords: (usize, usize), d: Direction) {
    grid.carve_passage(coords, d).unwrap();
}

fn generate_valid_maze() -> OrthogonalMaze {
    let mut maze = OrthogonalMaze::new(4, 4);
    let grid = maze.get_grid_mut();

    carve(grid, (0, 0), Direction::South);
    carve(grid, (0, 1), Direction::East);
    carve(grid, (0, 2), Direction::East);
    carve(grid, (0, 2), Direction::South);
    carve(grid, (0, 3), Direction::East);

    carve(grid, (1, 0), Direction::East);
    carve(grid, (1, 1), Direction::East);
    carve(grid, (1, 1), Direction::South);
    carve(grid, (1, 2), Direction::East);
    carve(grid, (1, 3), Direction::East);

    carve(grid, (2, 0), Direction::East);
    carve(grid, (2, 2), Direction::East);
    carve(grid, (2, 3), Direction::East);

    carve(grid, (3, 1), Direction::North);
    carve(grid, (3, 1), Direction::South);

    maze
}

fn generate_invalid_maze() -> OrthogonalMaze {
    let mut maze = OrthogonalMaze::new(4, 4);
    let grid = maze.get_grid_mut();

    carve(grid, (0, 0), Direction::South);
    carve(grid, (0, 1), Direction::East);
    carve(grid, (0, 2), Direction::East);
    carve(grid, (0, 2), Direction::South);
    carve(grid, (0, 3), Direction::East);

    carve(grid, (1, 1), Direction::East);
    carve(grid, (1, 1), Direction::North);
    carve(grid, (1, 2), Direction::East);
    carve(grid, (1, 3), Direction::East);

    carve(grid, (2, 0), Direction::East);
    carve(grid, (2, 2), Direction::East);
    carve(grid, (2, 3), Direction::East);

    carve(grid, (3, 1), Direction::North);
    carve(grid, (3, 1), Direction::South);

    maze
}

fn collect_iter(maze: &OrthogonalMaze) -> Vec<((usize, usize), Cell)> {
    let mut out = Vec::new();
    let mut it = maze.iter();
    while let Some(e) = it.next() {
        out.push(e);
    }
    out
}

fn collect_into_iter(maze: OrthogonalMaze) -> Vec<((usize, usize), Cell)> {
    let mut out = Vec::new();
    let mut it = maze.into_iter();
    while let Some(e) = it.next() {
        out.push(e);
    }
    out
}

#[test]
fn iterators_have_size() {
    let maze = generate_valid_maze();

    let iter_count = collect_iter(&maze).len();

    assert_eq!(iter_count, 16);
    assert_eq!(
        collect_iter(&maze)[5],
        ((1usize, 1usize), cell_of(&[Direction::South, Direction::East, Direction::West]))
    );
}

#[test]
fn into_iterators_have_size() {
    let maze = generate_valid_maze();

    let iter_count = collect_into_iter(maze.clone()).len();

    assert_eq!(iter_count, 16);
    assert_eq!(
        collect_into_iter(maze)[5],
        ((1usize, 1usize), cell_of(&[Direction::South, Direction::East, Direction::West]))
    );
}

#[test]
fn display_orthogonal_maze() {
    let mut expected = String::new();
    expected.push_str(" _______ \n");
    expected.push_str("| |___  |\n");
    expected.push_str("|_   _| |\n");
    expected.push_str("|  _____|\n");
    expected.push_str("|_______|\n");

    let maze = generate_valid_maze();
    let actual = maze.to_string();

    assert_eq!(actual, expected);
}

#[test]
fn valid_maze() {
    let maze = generate_valid_maze();
    assert!(maze.is_valid());
}

#[test]
fn invalid_maze() {
    let maze = generate_invalid_maze();
    assert!(!maze.is_valid());
}

#[test]
fn access_by_index_maze() {
    let maze = generate_valid_maze();

    let cell = maze.cell((3, 1));
    assert_eq!(cell, Cell::from_bits(0b0011).unwrap());
}

#[test]
fn into_iterators_correct_index() {
    let maze = generate_valid_maze();
    let width = maze.width();

    collect_into_iter(maze)
        .into_iter()
        .enumerate()
        .for_each(|(idx, (coord, cell))| {
            assert_eq!(idx, coord.1 * width + coord.0);
            assert!(!cell.is_empty());
        });
}

#[test]
fn iterators_correct_index() {
    let maze = generate_valid_maze();
    let width = maze.width();

    collect_iter(&maze)
        .into_iter()
        .enumerate()
        .for_each(|(idx, (coord, cell))| {
            assert_eq!(idx, coord.1 * width + coord.0);
            assert!(!cell.is_empty());
        });
}

#[test]
fn maze_ends() {
    let maze = generate_valid_maze();

    let ends = maze.ends();

    assert_eq!(
        ends,
        vec![
            ((0, 0), Cell::from_direction(Direction::South)),
            ((1, 0), Cell::from_direction(Direction::East)),
            ((2, 1), Cell::from_direction(Direction::West)),
            ((3, 3), Cell::from_direction(Direction::West))
        ]
    );
}

#[test]
fn ends_are_exactly_three_walled_cells() {
    let maze = generate_valid_maze();
    let expected: Vec<((usize, usize), Cell)> = collect_iter(&maze)
        .into_iter()
        .filter(|(_, cell)| cell.walls_count() == 3)
        .collect();
    assert_eq!(maze.ends(), expected);
    assert!(maze.ends().iter().all(|(_, cell)| cell.is_end()));
}

#[test]
fn into_iter_matches_iter() {
    let maze = generate_valid_maze();
    let borrowed = collect_iter(&maze);
    let owned = collect_into_iter(maze);
    assert_eq!(borrowed, owned);
}

#[test]
fn into_iter_empties_the_cells() {
    let maze = generate_valid_maze();
    let mut it = maze.into_iter();
    let mut n = 0;
    while it.next().is_some() {
        n += 1;
    }
    assert_eq!(n, 16);
    assert!(it.next().is_none());
}

#[test]
fn empty_maze_is_not_valid() {
    assert!(!OrthogonalMaze::new(0, 5).is_valid());
    assert!(!OrthogonalMaze::new(5, 0).is_valid());
}

#[test]
fn single_cell_maze_is_valid() {
    assert!(OrthogonalMaze::new(1, 1).is_valid());
}

#[test]
fn uncarved_maze_is_not_valid() {
    assert!(!OrthogonalMaze::new(2, 1).is_valid());
}

use knossos::{Cell, Direction, Grid};

#[test]
fn carving_opens_both_ends() {
    let mut grid = Grid::new(3, 2);
    let next = grid.carve_passage((1, 0), Direction::South).unwrap();
    assert_eq!(next, (1, 1));
    assert!(grid.is_carved((1, 0), Direction::South));
    assert!(grid.is_carved((1, 1), Direction::North));
    assert!(!grid.is_carved((1, 1), Direction::South));
    assert!(grid.is_cell_visited((1, 1)));
    assert!(!grid.is_cell_visited((0, 0)));
}

#[test]
fn carving_off_the_grid_fails_and_changes_nothing() {
    let mut grid = Grid::new(2, 2);
    let err = grid.carve_passage((0, 0), Direction::North).unwrap_err();
    assert_eq!(err.coords, (0, 0));
    assert_eq!(err.direction, Direction::North);
    assert!(grid.carve_passage((1, 1), Direction::East).is_err());
    assert!(grid.carve_passage((0, 1), Direction::West).is_err());
    assert!(grid.carve_passage((1, 1), Direction::South).is_err());
    assert!(!grid.is_cell_visited((0, 0)));
    assert!(!grid.is_cell_visited((1, 1)));
}

#[test]
fn next_cell_coords() {
    let grid = Grid::new(3, 3);
    assert_eq!(grid.get_next_cell_coords((1, 1), Direction::North).unwrap(), (1, 0));
    assert_eq!(grid.get_next_cell_coords((1, 1), Direction::South).unwrap(), (1, 2));
    assert_eq!(grid.get_next_cell_coords((1, 1), Direction::West).unwrap(), (0, 1));
    assert_eq!(grid.get_next_cell_coords((1, 1), Direction::East).unwrap(), (2, 1));
    assert!(grid.get_next_cell_coords((2, 2), Direction::East).is_err());
    assert!(grid.get_next_cell_coords((2, 2), Direction::South).is_err());
}

#[test]
fn cell_flags() {
    let cell = Cell::from_bits(0b0011).unwrap();
    assert_eq!(cell.walls_count(), 2);
    assert!(cell.is_open(Direction::North));
    assert!(cell.is_open(Direction::South));
    assert!(!cell.is_open(Direction::East));
    assert!(Cell::from_bits(16).is_none());
    assert_eq!(Cell::empty().walls_count(), 4);
    assert!(Cell::from_direction(Direction::West).is_end());
    assert_eq!(Direction::East.opposite(), Direction::West);
    assert_eq!(Cell::from_direction(Direction::East).bits(), 4);
}

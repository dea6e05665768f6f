use knossos::{AsciiBroad, AsciiNarrow, Direction, Formatter, Grid, StringWrapper};

fn generate_maze() -> Grid {
    let mut grid = Grid::new(4, 4);

    grid.carve_passage((0, 0), Direction::South).unwrap();
    grid.carve_passage((0, 1), Direction::East).unwrap();
    grid.carve_passage((0, 2), Direction::East).unwrap();
    grid.carve_passage((0, 2), Direction::South).unwrap();
    grid.carve_passage((0, 3), Direction::East).unwrap();

    grid.carve_passage((1, 0), Direction::East).unwrap();
    grid.carve_passage((1, 1), Direction::East).unwrap();
    grid.carve_passage((1, 1), Direction::South).unwrap();
    grid.carve_passage((1, 2), Direction::East).unwrap();
    grid.carve_passage((1, 3), Direction::East).unwrap();

    grid.carve_passage((2, 0), Direction::East).unwrap();
    grid.carve_passage((2, 2), Direction::East).unwrap();
    grid.carve_passage((2, 3), Direction::East).unwrap();

    grid.carve_passage((3, 1), Direction::North).unwrap();
    grid.carve_passage((3, 1), Direction::South).unwrap();

    grid
}

#[test]
fn format_narrow() {
    let mut expected = String::new();
    expected.push_str(" _______ \n");
    expected.push_str("| |___  |\n");
    expected.push_str("|_   _| |\n");
    expected.push_str("|  _____|\n");
    expected.push_str("|_______|\n");

    let formatter = AsciiNarrow;
    let grid = generate_maze();
    let actual = formatter.format(&grid).0;

    assert_eq!(actual, expected);
}

#[test]
fn format_broad() {
    let mut expected = String::new();
    expected.push_str("+---+---+---+---+\n");
    expected.push_str("|   |           |\n");
    expected.push_str("+   +---+---+   +\n");
    expected.push_str("|           |   |\n");
    expected.push_str("+---+   +---+   +\n");
    expected.push_str("|               |\n");
    expected.push_str("+   +---+---+---+\n");
    expected.push_str("|               |\n");
    expected.push_str("+---+---+---+---+\n");

    let formatter = AsciiBroad;
    let grid = generate_maze();
    let actual = formatter.format(&grid).0;

    assert_eq!(actual, expected);
}

#[test]
fn into_inner_returns_inner_string() {
    let wrapper = StringWrapper(String::from("Hello, Rust!"));
    let inner = wrapper.into_inner();
    assert_eq!(inner, "Hello, Rust!");
}

#[test]
fn format_uncarved_single_row() {
    let grid = Grid::new(2, 1);
    assert_eq!(AsciiNarrow.format(&grid).0, " ___ \n|_|_|\n");
    assert_eq!(AsciiBroad.format(&grid).0, "+---+---+\n|   |   |\n+---+---+\n");
}

#[test]
fn format_without_columns() {
    let grid = Grid::new(0, 2);
    assert_eq!(AsciiBroad.format(&grid).0, "+\n");
    assert_eq!(AsciiNarrow.format(&grid).0, "  \n|\n|\n");
}

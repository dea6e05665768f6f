use knossos::{hex_to_rgb, parse_coords, Color, Direction, Formatter, GameMap, Grid, Image, ParseHexError};

#[test]
fn game_map_of_two_joined_cells() {
    let mut grid = Grid::new(2, 1);
    grid.carve_passage((0, 0), Direction::East).unwrap();
    let text = GameMap::new().span(1).format(&grid).0;
    assert_eq!(text, "#####\n#...#\n#####\n");
}

#[test]
fn game_map_default_span_and_characters() {
    let mut grid = Grid::new(1, 2);
    grid.carve_passage((0, 0), Direction::South).unwrap();
    let text = GameMap::new().wall('X').passage(' ').format(&grid).0;
    assert_eq!(text, "XXXX\nX  X\nX  X\nX  X\nX  X\nX  X\nXXXX\n");
}

#[test]
fn game_map_markers() {
    let grid = Grid::new(1, 1);
    let text = GameMap::new().with_start_goal().format(&grid).0;
    assert_eq!(text, "####\n#S.#\n#.G#\n####\n");
}

#[test]
fn game_map_markers_on_top_and_bottom_rows() {
    let mut grid = Grid::new(3, 3);
    for y in 0..3 {
        grid.carve_passage((0, y), Direction::East).unwrap();
        grid.carve_passage((1, y), Direction::East).unwrap();
    }
    let text = GameMap::new().span(1).with_start_goal().format(&grid).0;
    let rows: Vec<&str> = text.lines().collect();
    assert_eq!(rows.len(), 7);
    assert_eq!(rows[1].matches('S').count(), 1);
    assert_eq!(rows[5].matches('G').count(), 1);
    assert_eq!(text.matches('S').count(), 1);
    assert_eq!(text.matches('G').count(), 1);
}

#[test]
fn image_of_one_cell() {
    let grid = Grid::new(1, 1);
    let image = Image::new()
        .wall(1)
        .passage(1)
        .margin(1)
        .foreground(Color::RGB(1, 2, 3))
        .background(Color::RGB(9, 9, 9));
    let raster = image.format(&grid);
    assert_eq!(raster.width, 5);
    assert_eq!(raster.height, 5);
    assert_eq!(raster.pixels.len(), 75);
    let at = |x: usize, y: usize| {
        let i = (y * 5 + x) * 3;
        (raster.pixels[i], raster.pixels[i + 1], raster.pixels[i + 2])
    };
    assert_eq!(at(0, 0), (9, 9, 9));
    assert_eq!(at(1, 1), (1, 2, 3));
    assert_eq!(at(2, 1), (1, 2, 3));
    assert_eq!(at(2, 2), (9, 9, 9));
    assert_eq!(at(3, 2), (1, 2, 3));
    assert_eq!(at(4, 4), (9, 9, 9));
}

#[test]
fn image_open_passage_is_background() {
    let mut grid = Grid::new(2, 1);
    grid.carve_passage((0, 0), Direction::East).unwrap();
    let image = Image::new()
        .wall(1)
        .passage(2)
        .margin(0)
        .foreground(Color::RGB(0, 0, 0))
        .background(Color::RGB(255, 255, 255));
    let raster = image.format(&grid);
    assert_eq!((raster.width, raster.height), (7, 4));
    let at = |x: usize, y: usize| raster.pixels[(y * 7 + x) * 3];
    assert_eq!(at(3, 1), 255);
    assert_eq!(at(3, 0), 0);
    assert_eq!(at(0, 1), 0);
    assert_eq!(at(6, 2), 0);
    assert_eq!(at(1, 2), 255);
}

#[test]
fn hex_colors() {
    assert_eq!(hex_to_rgb("#ffffff").unwrap(), Color::RGB(255, 255, 255));
    assert_eq!(hex_to_rgb("000000").unwrap(), Color::RGB(0, 0, 0));
    assert_eq!(hex_to_rgb("#1A2b3C").unwrap(), Color::RGB(0x1a, 0x2b, 0x3c));
    match hex_to_rgb("#fff") {
        Err(ParseHexError::Length(t)) => assert_eq!(t, "fff"),
        other => panic!("unexpected {:?}", other),
    }
    assert!(matches!(hex_to_rgb("#12345g"), Err(ParseHexError::InvalidDigit)));
    assert!(matches!(hex_to_rgb("##12345"), Err(ParseHexError::InvalidDigit)));
    assert!(matches!(hex_to_rgb(""), Err(ParseHexError::Length(_))));
}

#[test]
fn start_coords_text() {
    assert_eq!(parse_coords("(3,4)").unwrap(), (3, 4));
    assert_eq!(parse_coords("  (10,0)\n").unwrap(), (10, 0));
    assert_eq!(parse_coords("((+1,2))").unwrap(), (1, 2));
    assert_eq!(parse_coords("7,8").unwrap(), (7, 8));
    assert_eq!(parse_coords("(3, 4)").unwrap_err(), "invalid digit found in string");
    assert_eq!(parse_coords("(,1)").unwrap_err(), "cannot parse integer from empty string");
    assert_eq!(
        parse_coords("(99999999999999999999,1)").unwrap_err(),
        "number too large to fit in target type"
    );
    assert_eq!(parse_coords("12").unwrap_err(), "Start coord should follow the pattern `(0, 0)`");
    assert_eq!(parse_coords("(1,2,3)").unwrap_err(), "invalid digit found in string");
}

#[test]
fn hex_error_messages() {
    assert_eq!(hex_to_rgb("#12345g").unwrap_err().to_string(), "invalid digit found in string");
    assert_eq!(
        hex_to_rgb("#fff").unwrap_err().to_string(),
        "Expected a 6 character color value in hex, but got: \"fff\""
    );
}

#[test]
fn hex_length_message_escapes_like_debug() {
    assert_eq!(
        hex_to_rgb("a\"b").unwrap_err().to_string(),
        "Expected a 6 character color value in hex, but got: \"a\\\"b\""
    );
}

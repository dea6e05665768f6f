use knossos::{find_maze_ends_paths, find_path, Direction, OrthogonalMaze, OrthogonalMazeBuilder};

fn fixture() -> OrthogonalMaze {
    let mut maze = OrthogonalMaze::new(4, 4);
    let grid = maze.get_grid_mut();
    for (c, d) in [
        ((0, 0), Direction::South),
        ((0, 1), Direction::East),
        ((0, 2), Direction::East),
        ((0, 2), Direction::South),
        ((0, 3), Direction::East),
        ((1, 0), Direction::East),
        ((1, 1), Direction::East),
        ((1, 1), Direction::South),
        ((1, 2), Direction::East),
        ((1, 3), Direction::East),
        ((2, 0), Direction::East),
        ((2, 2), Direction::East),
        ((2, 3), Direction::East),
        ((3, 1), Direction::North),
        ((3, 1), Direction::South),
    ] {
        grid.carve_passage(c, d).unwrap();
    }
    maze
}

fn is_walk(maze: &OrthogonalMaze, path: &[(usize, usize)]) -> bool {
    path.windows(2).all(|w| {
        [Direction::North, Direction::South, Direction::East, Direction::West]
            .iter()
            .any(|d| maze.grid().get_next_cell_coords(w[0], *d).ok() == Some(w[1]) && maze.grid().is_carved(w[0], *d))
    })
}

#[test]
fn shortest_path_in_fixture() {
    let maze = fixture();
    let costs = vec![1u32; 16];
    let (path, cost) = find_path(&maze, (0, 0), (1, 0), &costs).unwrap();
    assert_eq!(path.first(), Some(&(0, 0)));
    assert_eq!(path.last(), Some(&(1, 0)));
    assert!(is_walk(&maze, &path));
    assert_eq!(cost as usize, path.len() - 1);
    assert_eq!(cost, 9);
}

#[test]
fn path_to_itself() {
    let maze = fixture();
    let costs = vec![1u32; 16];
    let (path, cost) = find_path(&maze, (2, 2), (2, 2), &costs).unwrap();
    assert_eq!(path, vec![(2, 2)]);
    assert_eq!(cost, 0);
}

#[test]
fn unreachable_goal() {
    let maze = OrthogonalMaze::new(3, 1);
    let costs = vec![1u32; 3];
    assert!(find_path(&maze, (0, 0), (2, 0), &costs).is_none());
}

#[test]
fn costs_steer_the_path() {
    let mut maze = OrthogonalMaze::new(2, 2);
    let grid = maze.get_grid_mut();
    grid.carve_passage((0, 0), Direction::East).unwrap();
    grid.carve_passage((0, 0), Direction::South).unwrap();
    grid.carve_passage((1, 0), Direction::South).unwrap();
    grid.carve_passage((0, 1), Direction::East).unwrap();
    let costs = vec![1u32, 1, 5, 1];
    let (path, cost) = find_path(&maze, (0, 0), (1, 1), &costs).unwrap();
    assert_eq!(path, vec![(0, 0), (1, 0), (1, 1)]);
    assert_eq!(cost, 2);
}

#[test]
fn ends_paths_cover_every_dead_end() {
    let maze = fixture();
    let costs = vec![1u32; 16];
    let result = find_maze_ends_paths(&maze, (0, 1), &costs);
    let ends: Vec<(usize, usize)> = maze.ends().into_iter().map(|e| e.0).collect();
    assert_eq!(result.paths.len(), ends.len());
    for (i, ((start, end), (path, _cost))) in result.paths.iter().enumerate() {
        assert_eq!(*start, (0, 1));
        assert_eq!(*end, ends[i]);
        assert_eq!(path.first(), Some(&(0, 1)));
        assert_eq!(path.last(), Some(end));
        assert!(is_walk(&maze, path));
    }
    assert!(result.contains_coord_path_end((0, 1), (3, 3), (1, 2)));
    assert!(!result.contains_coord_path_end((0, 1), (3, 3), (1, 0)));
    assert!(!result.contains_coord_path_end((0, 0), (3, 3), (1, 2)));
}

#[test]
fn farther_goals_cost_more_in_a_corridor() {
    let maze = OrthogonalMazeBuilder::new()
        .width(8)
        .height(1)
        .seed(Some(3))
        .build()
        .unwrap();
    let costs = vec![1u32; 8];
    let mut last = 0;
    for x in 0..8 {
        let (_, cost) = find_path(&maze, (0, 0), (x, 0), &costs).unwrap();
        assert!(cost >= last);
        assert_eq!(cost as usize, x);
        last = cost;
    }
}

#[test]
fn every_reachable_dead_end_gets_a_cheapest_path() {
    let maze = OrthogonalMazeBuilder::new().width(9).height(7).seed(Some(5)).build().unwrap();
    let costs = vec![1u32; 63];
    let result = find_maze_ends_paths(&maze, (4, 3), &costs);
    assert_eq!(result.paths.len(), maze.ends().len());
    for ((start, end), (path, cost)) in &result.paths {
        assert_eq!(*start, (4, 3));
        assert_eq!(*cost as usize, path.len() - 1);
        assert!(*cost as usize >= start.0.abs_diff(end.0) + start.1.abs_diff(end.1));
    }
}

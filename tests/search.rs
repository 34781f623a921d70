use astar_grid::consts::{MAX_BOARD_HEIGHT, MAX_BOARD_WIDTH};
use astar_grid::pathfinding::{find_path, heuristic};
use astar_grid::style::{cell_style, Button};
use astar_grid::{Cell, GameData};

/// Builds a board from rows of text: `#` is solid, anything else open.
fn board(rows: &[&str]) -> GameData {
    let mut cells: Vec<Vec<Cell>> = Vec::new();
    for (y, row) in rows.iter().enumerate() {
        let mut line = Vec::new();
        for (x, ch) in row.chars().enumerate() {
            line.push(Cell { x, y, solid: ch == '#' });
        }
        cells.push(line);
    }
    GameData {
        board_size_x: rows[0].len() as i32,
        board_size_y: rows.len() as i32,
        board: cells,
        point_a: None,
        point_b: None,
    }
}

fn at(game: &GameData, x: usize, y: usize) -> Cell {
    game.board[y][x].clone()
}

fn step_cost(a: &Cell, b: &Cell) -> u64 {
    if a.x == b.x || a.y == b.y {
        10
    } else {
        14
    }
}

fn route_cost(path: &[Cell]) -> u64 {
    path.windows(2).map(|w| step_cost(&w[0], &w[1])).sum()
}

/// Checks that `path` runs goal first, start last, by king moves over open cells, without revisits.
fn assert_valid_route(game: &GameData, path: &[Cell], start: &Cell, goal: &Cell) {
    assert!(!path.is_empty());
    assert_eq!((path[0].x, path[0].y), (goal.x, goal.y));
    assert_eq!(path.last().unwrap(), start);
    for w in path.windows(2) {
        let dx = (w[0].x as i64 - w[1].x as i64).abs();
        let dy = (w[0].y as i64 - w[1].y as i64).abs();
        assert!(dx <= 1 && dy <= 1 && (dx, dy) != (0, 0));
        assert!(!w[0].solid);
        assert_eq!(w[0], at(game, w[0].x, w[0].y));
    }
    for i in 0..path.len() {
        for j in i + 1..path.len() {
            assert!((path[i].x, path[i].y) != (path[j].x, path[j].y));
        }
    }
}

/// Cheapest cost from `start` to every cell, stepping only onto open cells (Dijkstra).
fn brute_costs(game: &GameData, start: &Cell) -> Vec<Vec<Option<u64>>> {
    let w = game.board_size_x as usize;
    let h = game.board_size_y as usize;
    let mut dist: Vec<Vec<Option<u64>>> = vec![vec![None; w]; h];
    let mut done = vec![vec![false; w]; h];
    dist[start.y][start.x] = Some(0);
    loop {
        let mut best: Option<(u64, usize, usize)> = None;
        for y in 0..h {
            for x in 0..w {
                if let Some(d) = dist[y][x] {
                    if !done[y][x] && best.map_or(true, |b| d < b.0) {
                        best = Some((d, x, y));
                    }
                }
            }
        }
        let (d, x, y) = match best {
            Some(b) => b,
            None => break,
        };
        done[y][x] = true;
        for dy in -1i64..=1 {
            for dx in -1i64..=1 {
                if (dx, dy) == (0, 0) {
                    continue;
                }
                let nx = x as i64 + dx;
                let ny = y as i64 + dy;
                if nx < 0 || ny < 0 || nx >= w as i64 || ny >= h as i64 {
                    continue;
                }
                let (nx, ny) = (nx as usize, ny as usize);
                if game.board[ny][nx].solid {
                    continue;
                }
                let nd = d + if dx == 0 || dy == 0 { 10 } else { 14 };
                if dist[ny][nx].map_or(true, |old| nd < old) {
                    dist[ny][nx] = Some(nd);
                }
            }
        }
    }
    dist
}

fn lcg_board(seed: &mut u64, w: usize, h: usize) -> GameData {
    let mut rows: Vec<String> = Vec::new();
    for _ in 0..h {
        let mut row = String::new();
        for _ in 0..w {
            *seed = seed.wrapping_mul(6364136223846793005).wrapping_add(1442695040888963407);
            row.push(if (*seed >> 33) % 3 == 0 { '#' } else { '.' });
        }
        rows.push(row);
    }
    let refs: Vec<&str> = rows.iter().map(|r| r.as_str()).collect();
    board(&refs)
}

#[test]
fn open_grid_diagonal_route() {
    let game = board(&["...", "...", "..."]);
    let start = at(&game, 0, 0);
    let goal = at(&game, 2, 2);
    let path = find_path(&game, &start, &goal).unwrap();
    let coords: Vec<(usize, usize)> = path.iter().map(|c| (c.x, c.y)).collect();
    assert_eq!(coords, vec![(2, 2), (1, 1), (0, 0)]);
    assert_eq!(route_cost(&path), 28);
}

#[test]
fn route_around_solid_centre() {
    let game = board(&["...", ".#.", "..."]);
    let start = at(&game, 0, 0);
    let goal = at(&game, 2, 2);
    let path = find_path(&game, &start, &goal).unwrap();
    assert_valid_route(&game, &path, &start, &goal);
    assert!(path.iter().all(|c| (c.x, c.y) != (1, 1)));
    assert_eq!(path.len(), 4);
    assert_eq!(route_cost(&path), 34);
}

#[test]
fn enclosed_goal_is_not_found() {
    let game = board(&[".....", ".###.", ".#.#.", ".###.", "....."]);
    let start = at(&game, 0, 0);
    let goal = at(&game, 2, 2);
    assert!(find_path(&game, &start, &goal).is_none());
}

#[test]
fn start_equal_to_goal() {
    let game = board(&["...", "...", "..."]);
    let start = at(&game, 1, 1);
    let path = find_path(&game, &start, &start).unwrap();
    assert_eq!(path, vec![Cell { x: 1, y: 1, solid: false }]);
}

#[test]
fn solid_start_still_anchors_a_route() {
    let game = board(&["#..", "...", "..."]);
    let start = at(&game, 0, 0);
    let goal = at(&game, 2, 0);
    let path = find_path(&game, &start, &goal).unwrap();
    assert_valid_route(&game, &path, &start, &goal);
    assert_eq!(route_cost(&path), 20);
    assert!(path.last().unwrap().solid);
}

#[test]
fn solid_goal_is_not_found() {
    let game = board(&["...", "...", "..#"]);
    assert!(find_path(&game, &at(&game, 0, 0), &at(&game, 2, 2)).is_none());
}

#[test]
fn single_cell_board() {
    let game = board(&["."]);
    let c = at(&game, 0, 0);
    assert_eq!(find_path(&game, &c, &c), Some(vec![c.clone()]));
}

#[test]
fn cells_outside_declared_bounds_are_not_used() {
    let mut game = board(&["...", "#..", "..."]);
    game.board_size_x = 1;
    let start = at(&game, 0, 0);
    let goal = at(&game, 0, 2);
    assert!(find_path(&game, &start, &goal).is_none());
}

#[test]
fn routes_are_valid_and_cheapest_on_small_boards() {
    let mut seed: u64 = 7;
    for round in 0..30 {
        let size = 2 + round % 5;
        let game = lcg_board(&mut seed, size, size);
        for sy in 0..size {
            for sx in 0..size {
                let start = at(&game, sx, sy);
                let costs = brute_costs(&game, &start);
                for gy in 0..size {
                    for gx in 0..size {
                        let goal = at(&game, gx, gy);
                        let found = find_path(&game, &start, &goal);
                        let best = if (sx, sy) == (gx, gy) { Some(0) } else { costs[gy][gx] };
                        match (found, best) {
                            (Some(path), Some(b)) => {
                                assert_valid_route(&game, &path, &start, &goal);
                                assert_eq!(route_cost(&path), b);
                            },
                            (None, None) => {},
                            (f, b) => panic!("search gave {:?}, brute force {:?}", f, b),
                        }
                    }
                }
            }
        }
    }
}

#[test]
fn heuristic_is_manhattan_distance() {
    let a = Cell { x: 1, y: 7, solid: false };
    let b = Cell { x: 4, y: 2, solid: true };
    assert_eq!(heuristic(&a, &b), 8);
    assert_eq!(heuristic(&b, &a), 8);
    assert_eq!(heuristic(&a, &a), 0);
}

#[test]
fn open_board_has_cells_in_place() {
    let game = GameData::open_board(MAX_BOARD_WIDTH as u16, MAX_BOARD_HEIGHT as u16);
    assert_eq!(game.board_size_x, 20);
    assert_eq!(game.board_size_y, 20);
    assert_eq!(game.board.len(), 20);
    for (y, row) in game.board.iter().enumerate() {
        assert_eq!(row.len(), 20);
        for (x, c) in row.iter().enumerate() {
            assert_eq!(*c, Cell { x, y, solid: false });
        }
    }
    assert!(game.point_a.is_none() && game.point_b.is_none());
}

#[test]
fn random_board_has_cells_in_place() {
    let game = GameData::random_board(7);
    assert_eq!((game.board_size_x, game.board_size_y), (7, 7));
    assert_eq!(game.board.len(), 7);
    for (y, row) in game.board.iter().enumerate() {
        assert_eq!(row.len(), 7);
        for (x, c) in row.iter().enumerate() {
            assert_eq!((c.x, c.y), (x, y));
        }
    }
}

#[test]
fn defaults_are_empty() {
    assert_eq!(Cell::default(), Cell { x: 0, y: 0, solid: false });
    let game = GameData::default();
    assert!(game.board.is_empty());
    assert_eq!((game.board_size_x, game.board_size_y), (0, 0));
}

#[test]
fn placing_points_skips_solid_cells() {
    let mut game = board(&["#.", ".."]);
    assert!(!game.place_point(0, 0, true));
    assert!(game.point_a.is_none());
    assert!(game.place_point(1, 0, true));
    assert_eq!(game.point_a, Some(Cell { x: 1, y: 0, solid: false }));
    assert!(game.place_point(1, 1, false));
    assert_eq!(game.point_b, Some(Cell { x: 1, y: 1, solid: false }));
    assert_eq!(game.point_a, Some(Cell { x: 1, y: 0, solid: false }));
}

#[test]
fn styles_follow_path_points_and_solidity() {
    let mut game = board(&["...", ".#.", "..."]);
    game.place_point(0, 0, true);
    game.place_point(2, 0, false);
    let path = vec![at(&game, 1, 2)];
    assert_eq!(cell_style(&game, &path, 1, 1), Button::Solid);
    assert_eq!(cell_style(&game, &path, 0, 1), Button::Empty);
    assert_eq!(cell_style(&game, &path, 0, 0), Button::Point);
    assert_eq!(cell_style(&game, &path, 2, 0), Button::Point);
    assert_eq!(cell_style(&game, &path, 1, 2), Button::Path);
}

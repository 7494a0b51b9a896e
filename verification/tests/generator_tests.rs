use maze::direction::Direction;
use maze::{Coord, Maze, MazeGenerator, MAZE_SIZE};

fn all_directions() -> [Direction; 4] {
    [Direction::Left, Direction::Up, Direction::Right, Direction::Down]
}

/// Count the open interior walls of a maze: each wall between horizontally
/// or vertically adjacent cells, counted once.
fn open_interior_walls(m: &Maze) -> usize {
    let mut open = 0;
    for y in 0..MAZE_SIZE {
        for x in 0..MAZE_SIZE {
            let c = Coord { x, y };
            if x + 1 < MAZE_SIZE && !m.get_wall(c, Direction::Right) {
                open += 1;
            }
            if y + 1 < MAZE_SIZE && !m.get_wall(c, Direction::Down) {
                open += 1;
            }
        }
    }
    open
}

/// Flood fill across open walls, returning how many cells are reachable
/// from the top-left cell.
fn reachable_cells(m: &Maze) -> usize {
    let mut seen = [[false; 5]; 5];
    let mut stack = vec![Coord { x: 0, y: 0 }];
    seen[0][0] = true;
    let mut count = 0;
    while let Some(c) = stack.pop() {
        count += 1;
        if c.y > 0 && !m.get_wall(c, Direction::Up) && !seen[c.y - 1][c.x] {
            seen[c.y - 1][c.x] = true;
            stack.push(Coord { x: c.x, y: c.y - 1 });
        }
        if c.y + 1 < MAZE_SIZE && !m.get_wall(c, Direction::Down) && !seen[c.y + 1][c.x] {
            seen[c.y + 1][c.x] = true;
            stack.push(Coord { x: c.x, y: c.y + 1 });
        }
        if c.x > 0 && !m.get_wall(c, Direction::Left) && !seen[c.y][c.x - 1] {
            seen[c.y][c.x - 1] = true;
            stack.push(Coord { x: c.x - 1, y: c.y });
        }
        if c.x + 1 < MAZE_SIZE && !m.get_wall(c, Direction::Right) && !seen[c.y][c.x + 1] {
            seen[c.y][c.x + 1] = true;
            stack.push(Coord { x: c.x + 1, y: c.y });
        }
    }
    count
}

#[test]
fn generation_visits_every_cell_and_empties_the_unvisited_set() {
    let mut rng = rand::rng();
    let g = MazeGenerator::new(&mut rng);
    assert_eq!(g.unvisited_len(), 0);
    for x in 0..MAZE_SIZE {
        for y in 0..MAZE_SIZE {
            assert!(g.is_visited(Coord { x, y }));
        }
    }
}

#[test]
fn extracted_maze_has_fully_walled_border() {
    let mut rng = rand::rng();
    let g = MazeGenerator::new(&mut rng);
    let m = g.extract_maze();
    for i in 0..MAZE_SIZE {
        assert!(m.get_wall(Coord { x: i, y: 0 }, Direction::Up));
        assert!(m.get_wall(Coord { x: i, y: MAZE_SIZE - 1 }, Direction::Down));
        assert!(m.get_wall(Coord { x: 0, y: i }, Direction::Left));
        assert!(m.get_wall(Coord { x: MAZE_SIZE - 1, y: i }, Direction::Right));
    }
}

#[test]
fn extracted_maze_tiles_start_at_origin() {
    let mut rng = rand::rng();
    let g = MazeGenerator::new(&mut rng);
    let m = g.extract_maze();
    for x in 0..MAZE_SIZE {
        for y in 0..MAZE_SIZE {
            assert_eq!(m.get(Coord { x, y }), Coord { x: 0, y: 0 });
        }
    }
}

#[test]
fn fresh_maze_has_spanning_tree_edge_count() {
    for _ in 0..20 {
        let m = Maze::new();
        assert_eq!(open_interior_walls(&m), MAZE_SIZE * MAZE_SIZE - 1);
    }
}

#[test]
fn fresh_maze_is_connected() {
    for _ in 0..20 {
        let m = Maze::new();
        assert_eq!(reachable_cells(&m), MAZE_SIZE * MAZE_SIZE);
    }
}

#[test]
fn fresh_maze_is_acyclic() {
    // a connected graph on n nodes with n - 1 edges is a tree
    for _ in 0..20 {
        let m = Maze::new();
        assert_eq!(reachable_cells(&m), MAZE_SIZE * MAZE_SIZE);
        assert_eq!(open_interior_walls(&m), MAZE_SIZE * MAZE_SIZE - 1);
    }
}

#[test]
fn interior_walls_agree_between_both_sides() {
    let m = Maze::new();
    for y in 0..MAZE_SIZE {
        for x in 0..MAZE_SIZE {
            let c = Coord { x, y };
            for d in all_directions() {
                let (nx, ny) = match d {
                    Direction::Up => {
                        if c.y == 0 {
                            continue;
                        }
                        (c.x, c.y - 1)
                    }
                    Direction::Down => {
                        if c.y + 1 == MAZE_SIZE {
                            continue;
                        }
                        (c.x, c.y + 1)
                    }
                    Direction::Left => {
                        if c.x == 0 {
                            continue;
                        }
                        (c.x - 1, c.y)
                    }
                    Direction::Right => {
                        if c.x + 1 == MAZE_SIZE {
                            continue;
                        }
                        (c.x + 1, c.y)
                    }
                };
                let back = match d {
                    Direction::Up => Direction::Down,
                    Direction::Down => Direction::Up,
                    Direction::Left => Direction::Right,
                    Direction::Right => Direction::Left,
                };
                assert_eq!(
                    m.get_wall(c, d),
                    m.get_wall(Coord { x: nx, y: ny }, back)
                );
            }
        }
    }
}

use maze::direction::Direction;
use maze::{Coord, Maze, SuperMaze, MAZE_SIZE};

fn all_directions() -> [Direction; 4] {
    [Direction::Left, Direction::Up, Direction::Right, Direction::Down]
}

/// The cell on the sub-maze border where the opening for `side` sits, and
/// the outward direction to query it with.
fn border_probe(side: Direction) -> (Coord, Direction) {
    let mid = MAZE_SIZE / 2;
    match side {
        Direction::Left => (Coord { x: 0, y: mid }, Direction::Left),
        Direction::Up => (Coord { x: mid, y: 0 }, Direction::Up),
        Direction::Right => (Coord { x: MAZE_SIZE - 1, y: mid }, Direction::Right),
        Direction::Down => (Coord { x: mid, y: MAZE_SIZE - 1 }, Direction::Down),
    }
}

/// Every observable value of a maze: walls per (cell, side) and tiles.
fn full_dump(m: &Maze) -> (Vec<bool>, Vec<Coord>) {
    let mut walls = Vec::new();
    let mut tiles = Vec::new();
    for y in 0..MAZE_SIZE {
        for x in 0..MAZE_SIZE {
            let c = Coord { x, y };
            for d in all_directions() {
                walls.push(m.get_wall(c, d));
            }
            tiles.push(m.get(c));
        }
    }
    (walls, tiles)
}

#[test]
fn structural_border_is_open_top_and_bottom_only() {
    let s = SuperMaze::new();
    let mid = MAZE_SIZE / 2;
    let m = &s.structural_maze;
    assert!(m.get_wall(Coord { x: 0, y: mid }, Direction::Left));
    assert!(!m.get_wall(Coord { x: mid, y: 0 }, Direction::Up));
    assert!(m.get_wall(Coord { x: MAZE_SIZE - 1, y: mid }, Direction::Right));
    assert!(!m.get_wall(Coord { x: mid, y: MAZE_SIZE - 1 }, Direction::Down));
}

#[test]
fn sub_maze_borders_match_structural_walls() {
    let s = SuperMaze::new();
    for y in 0..MAZE_SIZE {
        for x in 0..MAZE_SIZE {
            let slot = Coord { x, y };
            let sub = &s.mazes[y * MAZE_SIZE + x];
            for side in all_directions() {
                let (cell, dir) = border_probe(side);
                assert_eq!(
                    sub.get_wall(cell, dir),
                    s.structural_maze.get_wall(slot, side)
                );
            }
        }
    }
}

#[test]
fn reload_changes_only_the_given_slot() {
    let mut s = SuperMaze::new();
    let target = Coord { x: 1, y: 3 };
    let before: Vec<(Vec<bool>, Vec<Coord>)> = s.mazes.iter().map(full_dump).collect();
    let structural_before = full_dump(&s.structural_maze);
    s.reload(target);
    assert_eq!(full_dump(&s.structural_maze), structural_before);
    for y in 0..MAZE_SIZE {
        for x in 0..MAZE_SIZE {
            let i = y * MAZE_SIZE + x;
            if x == target.x && y == target.y {
                continue;
            }
            assert_eq!(full_dump(&s.mazes[i]), before[i]);
        }
    }
}

#[test]
fn reloaded_slot_still_matches_structural_walls() {
    let mut s = SuperMaze::new();
    let target = Coord { x: 4, y: 0 };
    s.reload(target);
    let sub = &s.mazes[target.y * MAZE_SIZE + target.x];
    for side in all_directions() {
        let (cell, dir) = border_probe(side);
        assert_eq!(
            sub.get_wall(cell, dir),
            s.structural_maze.get_wall(target, side)
        );
    }
}

#[test]
fn retrieve_maze_copies_the_stored_slot() {
    let s = SuperMaze::new();
    let slot = Coord { x: 2, y: 2 };
    let copy = s.retrieve_maze(slot);
    let stored = &s.mazes[slot.y * MAZE_SIZE + slot.x];
    assert_eq!(full_dump(&copy), full_dump(stored));
}

#[test]
fn retrieve_maze_is_value_independent() {
    let s = SuperMaze::new();
    let slot = Coord { x: 0, y: 0 };
    let before = full_dump(&s.mazes[0]);
    let mut copy = s.retrieve_maze(slot);
    copy.set_outer(false, false, false, false);
    copy.build();
    assert_eq!(full_dump(&s.mazes[0]), before);
}

#[test]
fn sub_maze_tiles_follow_the_wall_table() {
    let s = SuperMaze::new();
    for y in 0..MAZE_SIZE {
        for x in 0..MAZE_SIZE {
            let sub = s.retrieve_maze(Coord { x, y });
            for cy in 0..MAZE_SIZE {
                for cx in 0..MAZE_SIZE {
                    let c = Coord { x: cx, y: cy };
                    let (l, u, r, d) = sub.get_walls_for_cell(c);
                    assert_eq!(sub.get(c), Maze::tile_for_walls(l, u, r, d));
                }
            }
        }
    }
}

#[test]
fn structural_non_midpoint_border_stays_walled() {
    let s = SuperMaze::new();
    let mid = MAZE_SIZE / 2;
    let m = &s.structural_maze;
    for i in 0..MAZE_SIZE {
        if i != mid {
            assert!(m.get_wall(Coord { x: i, y: 0 }, Direction::Up));
            assert!(m.get_wall(Coord { x: i, y: MAZE_SIZE - 1 }, Direction::Down));
            assert!(m.get_wall(Coord { x: 0, y: i }, Direction::Left));
            assert!(m.get_wall(Coord { x: MAZE_SIZE - 1, y: i }, Direction::Right));
        }
    }
}

#[test]
fn sub_maze_non_midpoint_border_stays_walled() {
    let s = SuperMaze::new();
    let mid = MAZE_SIZE / 2;
    for y in 0..MAZE_SIZE {
        for x in 0..MAZE_SIZE {
            let sub = s.retrieve_maze(Coord { x, y });
            for i in 0..MAZE_SIZE {
                if i != mid {
                    assert!(sub.get_wall(Coord { x: i, y: 0 }, Direction::Up));
                    assert!(sub.get_wall(Coord { x: i, y: MAZE_SIZE - 1 }, Direction::Down));
                    assert!(sub.get_wall(Coord { x: 0, y: i }, Direction::Left));
                    assert!(sub.get_wall(Coord { x: MAZE_SIZE - 1, y: i }, Direction::Right));
                }
            }
        }
    }
}

#[test]
fn every_sub_maze_is_a_perfect_maze() {
    // spanning tree: 24 open interior walls and every cell reachable
    let s = SuperMaze::new();
    for y in 0..MAZE_SIZE {
        for x in 0..MAZE_SIZE {
            let sub = s.retrieve_maze(Coord { x, y });
            let mut open = 0;
            for cy in 0..MAZE_SIZE {
                for cx in 0..MAZE_SIZE {
                    let c = Coord { x: cx, y: cy };
                    if cx + 1 < MAZE_SIZE && !sub.get_wall(c, Direction::Right) {
                        open += 1;
                    }
                    if cy + 1 < MAZE_SIZE && !sub.get_wall(c, Direction::Down) {
                        open += 1;
                    }
                }
            }
            assert_eq!(open, MAZE_SIZE * MAZE_SIZE - 1);
            let mut seen = [[false; 5]; 5];
            let mut stack = vec![Coord { x: 0, y: 0 }];
            seen[0][0] = true;
            let mut count = 0;
            while let Some(c) = stack.pop() {
                count += 1;
                if c.y > 0 && !sub.get_wall(c, Direction::Up) && !seen[c.y - 1][c.x] {
                    seen[c.y - 1][c.x] = true;
                    stack.push(Coord { x: c.x, y: c.y - 1 });
                }
                if c.y + 1 < MAZE_SIZE && !sub.get_wall(c, Direction::Down) && !seen[c.y + 1][c.x] {
                    seen[c.y + 1][c.x] = true;
                    stack.push(Coord { x: c.x, y: c.y + 1 });
                }
                if c.x > 0 && !sub.get_wall(c, Direction::Left) && !seen[c.y][c.x - 1] {
                    seen[c.y][c.x - 1] = true;
                    stack.push(Coord { x: c.x - 1, y: c.y });
                }
                if c.x + 1 < MAZE_SIZE && !sub.get_wall(c, Direction::Right) && !seen[c.y][c.x + 1] {
                    seen[c.y][c.x + 1] = true;
                    stack.push(Coord { x: c.x + 1, y: c.y });
                }
            }
            assert_eq!(count, MAZE_SIZE * MAZE_SIZE);
        }
    }
}

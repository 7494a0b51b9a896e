use maze::direction::Direction;
use maze::{Coord, Maze, MAZE_SIZE};

fn all_directions() -> [Direction; 4] {
    [Direction::Left, Direction::Up, Direction::Right, Direction::Down]
}

/// Every wall of the maze as seen through the cell queries: one boolean per
/// (cell, side).
fn wall_dump(m: &Maze) -> Vec<bool> {
    let mut dump = Vec::new();
    for y in 0..MAZE_SIZE {
        for x in 0..MAZE_SIZE {
            for d in all_directions() {
                dump.push(m.get_wall(Coord { x, y }, d));
            }
        }
    }
    dump
}

#[test]
fn tile_table_is_exhaustive_and_exact() {
    let expected = [
        ((false, false, false, false), Coord { x: 1, y: 1 }),
        ((true, false, false, false), Coord { x: 0, y: 1 }),
        ((false, true, false, false), Coord { x: 1, y: 0 }),
        ((false, false, true, false), Coord { x: 2, y: 1 }),
        ((false, false, false, true), Coord { x: 1, y: 2 }),
        ((true, true, false, false), Coord { x: 0, y: 0 }),
        ((false, true, true, false), Coord { x: 2, y: 0 }),
        ((false, false, true, true), Coord { x: 2, y: 2 }),
        ((true, false, false, true), Coord { x: 0, y: 2 }),
        ((true, false, true, false), Coord { x: 3, y: 0 }),
        ((false, true, false, true), Coord { x: 3, y: 2 }),
        ((false, true, true, true), Coord { x: 5, y: 1 }),
        ((true, false, true, true), Coord { x: 4, y: 2 }),
        ((true, true, false, true), Coord { x: 3, y: 1 }),
        ((true, true, true, false), Coord { x: 4, y: 0 }),
        ((true, true, true, true), Coord { x: 4, y: 1 }),
    ];
    assert_eq!(expected.len(), 16);
    for ((l, u, r, d), tile) in expected {
        assert_eq!(Maze::tile_for_walls(l, u, r, d), tile);
    }
}

#[test]
fn set_outer_changes_exactly_the_midpoint_border_walls() {
    let mut m = Maze::new();
    let before = wall_dump(&m);
    m.set_outer(false, false, false, false);
    let after = wall_dump(&m);
    let mid = MAZE_SIZE / 2;
    let mut i = 0;
    for y in 0..MAZE_SIZE {
        for x in 0..MAZE_SIZE {
            for d in all_directions() {
                let is_opened_midpoint = match d {
                    Direction::Left => x == 0 && y == mid,
                    Direction::Up => y == 0 && x == mid,
                    Direction::Right => x == MAZE_SIZE - 1 && y == mid,
                    Direction::Down => y == MAZE_SIZE - 1 && x == mid,
                };
                if is_opened_midpoint {
                    assert!(before[i]);
                    assert!(!after[i]);
                } else {
                    assert_eq!(before[i], after[i]);
                }
                i += 1;
            }
        }
    }
}

#[test]
fn set_outer_tuple_is_reflected_by_border_queries() {
    let mut m = Maze::new();
    m.set_outer(true, false, true, false);
    let mid = MAZE_SIZE / 2;
    assert!(m.get_wall(Coord { x: 0, y: mid }, Direction::Left));
    assert!(!m.get_wall(Coord { x: mid, y: 0 }, Direction::Up));
    assert!(m.get_wall(Coord { x: MAZE_SIZE - 1, y: mid }, Direction::Right));
    assert!(!m.get_wall(Coord { x: mid, y: MAZE_SIZE - 1 }, Direction::Down));
}

#[test]
fn build_assigns_the_table_tile_to_every_cell() {
    let m = Maze::gen_new_maze((true, false, true, false));
    for y in 0..MAZE_SIZE {
        for x in 0..MAZE_SIZE {
            let c = Coord { x, y };
            let (l, u, r, d) = m.get_walls_for_cell(c);
            assert_eq!(m.get(c), Maze::tile_for_walls(l, u, r, d));
        }
    }
}

#[test]
fn get_walls_for_cell_matches_get_wall() {
    let m = Maze::new();
    for y in 0..MAZE_SIZE {
        for x in 0..MAZE_SIZE {
            let c = Coord { x, y };
            let (l, u, r, d) = m.get_walls_for_cell(c);
            assert_eq!(l, m.get_wall(c, Direction::Left));
            assert_eq!(u, m.get_wall(c, Direction::Up));
            assert_eq!(r, m.get_wall(c, Direction::Right));
            assert_eq!(d, m.get_wall(c, Direction::Down));
        }
    }
}

#[test]
fn get_wall_g_parses_unit_vectors() {
    let m = Maze::new();
    for y in 0..MAZE_SIZE {
        for x in 0..MAZE_SIZE {
            let c = Coord { x, y };
            assert_eq!(m.get_wall_g(c, 1, 0), m.get_wall(c, Direction::Right));
            assert_eq!(m.get_wall_g(c, -1, 0), m.get_wall(c, Direction::Left));
            assert_eq!(m.get_wall_g(c, 0, 1), m.get_wall(c, Direction::Down));
            assert_eq!(m.get_wall_g(c, 0, -1), m.get_wall(c, Direction::Up));
        }
    }
}

#[test]
fn duplicate_is_value_independent() {
    let m = Maze::new();
    let before = wall_dump(&m);
    let mut copy = m.duplicate();
    assert_eq!(wall_dump(&copy), before);
    copy.set_outer(false, false, false, false);
    assert_eq!(wall_dump(&m), before);
}

#[test]
fn possible_directions_respects_walls_and_edges() {
    let m = Maze::gen_new_maze((true, true, true, true));
    for y in 0..MAZE_SIZE {
        for x in 0..MAZE_SIZE {
            let c = Coord { x, y };
            let dirs = m.possible_directions(c);
            for d in all_directions() {
                let legal = match d {
                    Direction::Up => y != 0,
                    Direction::Left => x != 0,
                    Direction::Down => y != MAZE_SIZE - 1,
                    Direction::Right => x != MAZE_SIZE - 1,
                };
                let open = legal && !m.get_wall(c, d);
                assert_eq!(dirs.contains(&d), open);
            }
        }
    }
}

#[test]
fn gen_new_maze_keeps_non_midpoint_border_walled() {
    let m = Maze::gen_new_maze((false, false, false, false));
    let mid = MAZE_SIZE / 2;
    for i in 0..MAZE_SIZE {
        if i != mid {
            assert!(m.get_wall(Coord { x: i, y: 0 }, Direction::Up));
            assert!(m.get_wall(Coord { x: i, y: MAZE_SIZE - 1 }, Direction::Down));
            assert!(m.get_wall(Coord { x: 0, y: i }, Direction::Left));
            assert!(m.get_wall(Coord { x: MAZE_SIZE - 1, y: i }, Direction::Right));
        }
    }
    assert!(!m.get_wall(Coord { x: mid, y: 0 }, Direction::Up));
    assert!(!m.get_wall(Coord { x: mid, y: MAZE_SIZE - 1 }, Direction::Down));
    assert!(!m.get_wall(Coord { x: 0, y: mid }, Direction::Left));
    assert!(!m.get_wall(Coord { x: MAZE_SIZE - 1, y: mid }, Direction::Right));
}

use maze::direction::Direction;
use maze::{gen_hashset, Coord, MAZE_SIZE};

#[test]
fn is_vertical_of_each_direction() {
    assert!(Direction::Up.is_vertical());
    assert!(Direction::Down.is_vertical());
    assert!(!Direction::Left.is_vertical());
    assert!(!Direction::Right.is_vertical());
}

#[test]
fn offset_of_each_direction() {
    assert_eq!(Direction::Up.offset(), (0, -1));
    assert_eq!(Direction::Right.offset(), (1, 0));
    assert_eq!(Direction::Down.offset(), (0, 1));
    assert_eq!(Direction::Left.offset(), (-1, 0));
}

#[test]
fn from_vector_of_each_unit_vector() {
    assert_eq!(Direction::from_vector(1, 0), Direction::Right);
    assert_eq!(Direction::from_vector(-1, 0), Direction::Left);
    assert_eq!(Direction::from_vector(0, 1), Direction::Down);
    assert_eq!(Direction::from_vector(0, -1), Direction::Up);
}

#[test]
fn prio_from_current_forward() {
    assert_eq!(
        Direction::Up.prio_from_current(false),
        vec![Direction::Left, Direction::Up, Direction::Right, Direction::Down]
    );
    assert_eq!(
        Direction::Right.prio_from_current(false),
        vec![Direction::Up, Direction::Right, Direction::Down, Direction::Left]
    );
    assert_eq!(
        Direction::Down.prio_from_current(false),
        vec![Direction::Right, Direction::Down, Direction::Left, Direction::Up]
    );
    assert_eq!(
        Direction::Left.prio_from_current(false),
        vec![Direction::Down, Direction::Left, Direction::Up, Direction::Right]
    );
}

#[test]
fn prio_from_current_reversed() {
    assert_eq!(
        Direction::Up.prio_from_current(true),
        vec![Direction::Down, Direction::Right, Direction::Up, Direction::Left]
    );
    assert_eq!(
        Direction::Left.prio_from_current(true),
        vec![Direction::Right, Direction::Up, Direction::Left, Direction::Down]
    );
}

#[test]
fn possible_directions_at_center_without_current() {
    let dirs = Direction::possible_directions(None, Coord { x: 2, y: 2 });
    assert_eq!(
        dirs,
        vec![Direction::Left, Direction::Up, Direction::Right, Direction::Down]
    );
}

#[test]
fn possible_directions_at_corner() {
    let dirs = Direction::possible_directions(None, Coord { x: 0, y: 0 });
    assert_eq!(dirs, vec![Direction::Right, Direction::Down]);
}

#[test]
fn possible_directions_excludes_reversal() {
    let dirs = Direction::possible_directions(Some(Direction::Right), Coord { x: 2, y: 2 });
    assert_eq!(dirs, vec![Direction::Up, Direction::Right, Direction::Down]);
    let dirs = Direction::possible_directions(Some(Direction::Up), Coord { x: 2, y: 2 });
    assert_eq!(dirs, vec![Direction::Left, Direction::Up, Direction::Right]);
}

#[test]
fn possible_directions_never_empty() {
    for x in 0..MAZE_SIZE {
        for y in 0..MAZE_SIZE {
            for current in [
                None,
                Some(Direction::Up),
                Some(Direction::Right),
                Some(Direction::Down),
                Some(Direction::Left),
            ] {
                let dirs = Direction::possible_directions(current, Coord { x, y });
                assert!(!dirs.is_empty());
            }
        }
    }
}

#[test]
fn gen_hashset_holds_every_cell_once() {
    let cells = gen_hashset(MAZE_SIZE);
    assert_eq!(cells.len(), MAZE_SIZE * MAZE_SIZE);
    for x in 0..MAZE_SIZE {
        for y in 0..MAZE_SIZE {
            assert_eq!(cells.iter().filter(|c| **c == Coord { x, y }).count(), 1);
        }
    }
}

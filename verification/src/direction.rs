//! The four cardinal directions with their derived operations: unit offsets,
//! legality of a move at a grid position, the rotational priority ordering,
//! and the choice of a random legal next direction for the generation walk.
//!
//! "No incoming direction yet", which only occurs at the start of a walk, is
//! modelled as `Option<Direction>::None` rather than as a sentinel variant,
//! so every operation on a `Direction` itself is total.

use vstd::prelude::*;

use crate::rng::rand_below;
use crate::{in_grid, Coord, MAZE_SIZE};

verus! {

#[derive(Clone, Copy, PartialEq, Eq, Structural, Debug)]
pub enum Direction {
    Up,
    Right,
    Down,
    Left,
}

/// The direction that immediately reverses `d`.
pub open spec fn opposite(d: Direction) -> Direction {
    match d {
        Direction::Up => Direction::Down,
        Direction::Right => Direction::Left,
        Direction::Down => Direction::Up,
        Direction::Left => Direction::Right,
    }
}

/// Moving one step in direction `d` from column `x` stays inside the grid.
pub open spec fn can_step(d: Direction, x: int, y: int) -> bool {
    match d {
        Direction::Up => y > 0,
        Direction::Right => x < MAZE_SIZE - 1,
        Direction::Down => y < MAZE_SIZE - 1,
        Direction::Left => x > 0,
    }
}

pub open spec fn step_x(d: Direction, x: int) -> int {
    match d {
        Direction::Right => x + 1,
        Direction::Left => x - 1,
        _ => x,
    }
}

pub open spec fn step_y(d: Direction, y: int) -> int {
    match d {
        Direction::Up => y - 1,
        Direction::Down => y + 1,
        _ => y,
    }
}

/// The neighbouring cell one step in direction `d`.
pub open spec fn spec_step(c: Coord, d: Direction) -> Coord {
    Coord { x: step_x(d, c.x as int) as usize, y: step_y(d, c.y as int) as usize }
}

/// Stepping and then stepping back returns to the starting cell.
pub proof fn lemma_step_opposite(c: Coord, d: Direction)
    requires
        in_grid(c),
        can_step(d, c.x as int, c.y as int),
    ensures
        in_grid(spec_step(c, d)),
        can_step(opposite(d), spec_step(c, d).x as int, spec_step(c, d).y as int),
        spec_step(spec_step(c, d), opposite(d)) == c,
{
}

/// The legal next moves from `pos` given the direction `current` of the
/// previous step: a direction is excluded when it would leave the grid or
/// when it would immediately reverse `current`. `current == None` (the start
/// of a walk) excludes nothing but grid-leaving moves.
pub open spec fn spec_possible_directions(current: Option<Direction>, pos: Coord) -> Seq<
    Direction,
> {
    let s0 = Seq::<Direction>::empty();
    let s1 = if current != Some(Direction::Right) && pos.x != 0 {
        s0.push(Direction::Left)
    } else {
        s0
    };
    let s2 = if current != Some(Direction::Down) && pos.y != 0 {
        s1.push(Direction::Up)
    } else {
        s1
    };
    let s3 = if current != Some(Direction::Left) && pos.x != MAZE_SIZE - 1 {
        s2.push(Direction::Right)
    } else {
        s2
    };
    if current != Some(Direction::Up) && pos.y != MAZE_SIZE - 1 {
        s3.push(Direction::Down)
    } else {
        s3
    }
}

impl Direction {
    /// True for the two directions that cross a vertical (horizontal-edge)
    /// wall: `Up` and `Down`.
    pub fn is_vertical(&self) -> (r: bool)
        ensures
            r == (*self == Direction::Up || *self == Direction::Down),
    {
        *self == Direction::Up || *self == Direction::Down
    }

    /// The unit offset `(dx, dy)` of this direction, with `y` growing
    /// downwards.
    pub fn offset(self) -> (r: (i32, i32))
        ensures
            r == spec_offset(self),
    {
        match self {
            Direction::Up => (0, -1),
            Direction::Right => (1, 0),
            Direction::Down => (0, 1),
            Direction::Left => (-1, 0),
        }
    }

    /// Parse a raw unit vector into a direction; only the four unit vectors
    /// are valid inputs.
    pub fn from_vector(dx: i32, dy: i32) -> (r: Direction)
        requires
            is_unit_vector(dx as int, dy as int),
        ensures
            spec_offset(r) == (dx, dy),
            r == dir_of_vector(dx as int, dy as int),
    {
        if dx == 1 {
            Direction::Right
        } else if dx == -1 {
            Direction::Left
        } else if dy == 1 {
            Direction::Down
        } else {
            Direction::Up
        }
    }

    /// The rotational priority ordering of the four directions as seen from
    /// the current direction: the left-hand neighbour first, then straight
    /// on, then the right-hand neighbour, then the reversal; `reversed`
    /// yields the same ordering read backwards.
    pub fn prio_from_current(&self, reversed: bool) -> (r: Vec<Direction>)
        ensures
            r@ == spec_prio(*self, reversed),
    {
        let mut v: Vec<Direction> = Vec::new();
        match *self {
            Direction::Up => {
                v.push(Direction::Left);
                v.push(Direction::Up);
                v.push(Direction::Right);
                v.push(Direction::Down);
            },
            Direction::Right => {
                v.push(Direction::Up);
                v.push(Direction::Right);
                v.push(Direction::Down);
                v.push(Direction::Left);
            },
            Direction::Down => {
                v.push(Direction::Right);
                v.push(Direction::Down);
                v.push(Direction::Left);
                v.push(Direction::Up);
            },
            Direction::Left => {
                v.push(Direction::Down);
                v.push(Direction::Left);
                v.push(Direction::Up);
                v.push(Direction::Right);
            },
        }
        if reversed {
            let mut w: Vec<Direction> = Vec::new();
            w.push(v[3]);
            w.push(v[2]);
            w.push(v[1]);
            w.push(v[0]);
            assert(w@ =~= spec_prio(*self, reversed));
            w
        } else {
            assert(v@ =~= spec_prio(*self, reversed));
            v
        }
    }

    /// The legal next moves from `pos`, excluding a move that leaves the
    /// grid and the immediate reversal of `current`.
    pub fn possible_directions(current: Option<Direction>, pos: Coord) -> (r: Vec<Direction>)
        requires
            in_grid(pos),
        ensures
            r@ == spec_possible_directions(current, pos),
            r@.len() >= 1,
            forall|i: int|
                0 <= i < r@.len() ==> can_step(#[trigger] r@[i], pos.x as int, pos.y as int),
    {
        let mut v: Vec<Direction> = Vec::new();
        let outer_index = MAZE_SIZE - 1;
        if current != Some(Direction::Right) && pos.x != 0 {
            v.push(Direction::Left);
        }
        if current != Some(Direction::Down) && pos.y != 0 {
            v.push(Direction::Up);
        }
        if current != Some(Direction::Left) && pos.x != outer_index {
            v.push(Direction::Right);
        }
        if current != Some(Direction::Up) && pos.y != outer_index {
            v.push(Direction::Down);
        }
        v
    }

    /// Uniformly sample one direction from the legal next moves.
    pub fn rnd_possible_next(
        current: Option<Direction>,
        rng: &mut rand::rngs::ThreadRng,
        pos: Coord,
    ) -> (r: Direction)
        requires
            in_grid(pos),
        ensures
            spec_possible_directions(current, pos).contains(r),
            can_step(r, pos.x as int, pos.y as int),
    {
        let dirs = Direction::possible_directions(current, pos);
        let i = rand_below(rng, dirs.len());
        dirs[i]
    }
}

/// The neighbouring cell one step in direction `d` from `c`.
pub fn step(c: Coord, d: Direction) -> (r: Coord)
    requires
        in_grid(c),
        can_step(d, c.x as int, c.y as int),
    ensures
        r == spec_step(c, d),
        in_grid(r),
{
    match d {
        Direction::Up => Coord { x: c.x, y: c.y - 1 },
        Direction::Right => Coord { x: c.x + 1, y: c.y },
        Direction::Down => Coord { x: c.x, y: c.y + 1 },
        Direction::Left => Coord { x: c.x - 1, y: c.y },
    }
}

pub open spec fn spec_offset(d: Direction) -> (i32, i32) {
    match d {
        Direction::Up => (0i32, -1i32),
        Direction::Right => (1i32, 0i32),
        Direction::Down => (0i32, 1i32),
        Direction::Left => (-1i32, 0i32),
    }
}

/// Which direction a raw unit vector denotes.
pub open spec fn dir_of_vector(dx: int, dy: int) -> Direction {
    if dx == 1 {
        Direction::Right
    } else if dx == -1 {
        Direction::Left
    } else if dy == 1 {
        Direction::Down
    } else {
        Direction::Up
    }
}

pub open spec fn is_unit_vector(dx: int, dy: int) -> bool {
    (dx == 1 && dy == 0) || (dx == -1 && dy == 0) || (dx == 0 && dy == 1) || (dx == 0 && dy == -1)
}

pub open spec fn spec_prio(d: Direction, reversed: bool) -> Seq<Direction> {
    let forward = match d {
        Direction::Up => seq![Direction::Left, Direction::Up, Direction::Right, Direction::Down],
        Direction::Right => seq![Direction::Up, Direction::Right, Direction::Down, Direction::Left],
        Direction::Down => seq![Direction::Right, Direction::Down, Direction::Left, Direction::Up],
        Direction::Left => seq![Direction::Down, Direction::Left, Direction::Up, Direction::Right],
    };
    if reversed {
        seq![forward[3], forward[2], forward[1], forward[0]]
    } else {
        forward
    }
}

} // verus!

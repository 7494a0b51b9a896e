//! Procedural generation of perfect (acyclic, fully connected) rectangular
//! mazes on a fixed-size grid, and composition of many such mazes into a
//! two-level "maze of mazes" whose sub-maze border openings follow a
//! higher-level structural maze.

#![verifier::loop_isolation(false)]

use vstd::prelude::*;

pub mod count;
pub mod direction;
pub mod generator;
pub mod maze;
pub mod rng;
pub mod supermaze;

pub use crate::direction::Direction;
pub use crate::generator::{gen_hashset, MazeGenerator};
pub use crate::maze::Maze;
pub use crate::supermaze::SuperMaze;

verus! {

/// Side length of every maze grid: each maze has `MAZE_SIZE x MAZE_SIZE` cells.
pub const MAZE_SIZE: usize = 5;

/// A 2D grid position, used uniformly for cell, wall and tile addressing.
#[derive(Clone, Copy, PartialEq, Eq, Structural, Debug)]
pub struct Coord {
    pub x: usize,
    pub y: usize,
}

/// A coordinate addresses a cell of the `MAZE_SIZE x MAZE_SIZE` grid.
pub open spec fn in_grid(c: Coord) -> bool {
    c.x < MAZE_SIZE && c.y < MAZE_SIZE
}

/// A vector of `n` copies of `val`.
pub(crate) fn filled_vec<T: Copy>(n: usize, val: T) -> (r: Vec<T>)
    ensures
        r@.len() == n,
        forall|i: int| 0 <= i < n ==> r@[i] == val,
{
    let mut v: Vec<T> = Vec::new();
    let mut k: usize = 0;
    while k < n
        invariant
            k <= n,
            v@.len() == k,
            forall|i: int| 0 <= i < k ==> v@[i] == val,
        decreases n - k,
    {
        v.push(val);
        k += 1;
    }
    v
}

/// An element-wise copy of `v`, value-independent of the original.
pub(crate) fn copy_vec<T: Copy>(v: &Vec<T>) -> (r: Vec<T>)
    ensures
        r@ == v@,
{
    let mut w: Vec<T> = Vec::new();
    let mut k: usize = 0;
    let n = v.len();
    while k < n
        invariant
            k <= n,
            w@.len() == k,
            forall|i: int| 0 <= i < k ==> w@[i] == v@[i],
        decreases n - k,
    {
        w.push(v[k]);
        k += 1;
    }
    proof {
        assert(w@ =~= v@);
    }
    w
}

} // verus!

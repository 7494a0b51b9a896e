//! The two-level "maze of mazes": one structural maze whose cells are maze
//! slots and whose walls encode which neighbouring slots connect, plus one
//! independently generated sub-maze per slot whose border openings are
//! forced to match the structural maze's wall tuple at that slot.

use vstd::prelude::*;

use crate::generator::cell_idx;
use crate::maze::{
    lemma_border_except_mid, lemma_congruent_facts, lemma_interior_open_count_border,
    lemma_padded_from_border, open_interior, padded_from, perfect, Maze,
};
use crate::{in_grid, Coord, MAZE_SIZE};

verus! {

pub struct SuperMaze {
    pub structural_maze: Maze,
    pub mazes: Vec<Maze>,
}

impl SuperMaze {
    /// The sub-maze of slot `(x, y)` is a generated perfect maze, its tile
    /// cache derived, its four midpoint border openings equal to the
    /// structural maze's wall tuple at that slot, and every other border
    /// wall present.
    pub open spec fn slot_consistent(self, x: int, y: int) -> bool {
        &&& self.mazes@[cell_idx(x, y)].wf()
        &&& self.mazes@[cell_idx(x, y)].built()
        &&& self.mazes@[cell_idx(x, y)].border_tuple() == self.structural_maze.spec_walls_at(x, y)
        &&& self.mazes@[cell_idx(x, y)].border_walled_except_mid()
        &&& open_interior(self.mazes@[cell_idx(x, y)]) == MAZE_SIZE * MAZE_SIZE - 1
        &&& perfect(self.mazes@[cell_idx(x, y)])
    }

    /// The composition invariant: every slot's sub-maze border agrees with
    /// the structural maze, which `reload` keeps stable.
    pub open spec fn wf(self) -> bool {
        &&& self.structural_maze.wf()
        &&& self.mazes@.len() == MAZE_SIZE * MAZE_SIZE
        &&& forall|x: int, y: int|
            0 <= x < MAZE_SIZE && 0 <= y < MAZE_SIZE ==> #[trigger] self.slot_consistent(x, y)
    }

    /// Generate the structural maze, force its outer border open on the
    /// left and right midpoints and closed on top and bottom, then generate
    /// one sub-maze per slot from the structural wall tuple at that slot.
    pub fn new() -> (s: SuperMaze)
        ensures
            s.wf(),
            s.structural_maze.border_tuple() == (true, false, true, false),
            s.structural_maze.border_walled_except_mid(),
            open_interior(s.structural_maze) == MAZE_SIZE * MAZE_SIZE - 1,
            perfect(s.structural_maze),
    {
        let mut structural_maze = Maze::new();
        let ghost st0 = structural_maze;
        structural_maze.set_outer(true, false, true, false);
        proof {
            lemma_interior_open_count_border(st0, structural_maze);
            lemma_border_except_mid(st0, structural_maze);
            let (g, se) = choose|g: crate::generator::MazeGenerator, se: Coord|
                #[trigger] padded_from(st0, g) && in_grid(se) && #[trigger] crate::generator::spans(
                    g,
                    se,
                );
            lemma_padded_from_border(st0, structural_maze, g);
            assert(padded_from(structural_maze, g) && in_grid(se) && crate::generator::spans(
                g,
                se,
            ));
        }
        let mut mazes: Vec<Maze> = Vec::new();
        let mut y: usize = 0;
        while y < MAZE_SIZE
            invariant
                y <= MAZE_SIZE,
                structural_maze.wf(),
                mazes@.len() == y * 5,
                forall|xx: int, yy: int|
                    0 <= xx < MAZE_SIZE && 0 <= yy < y ==> (#[trigger] mazes@[cell_idx(
                        xx,
                        yy,
                    )]).wf() && mazes@[cell_idx(xx, yy)].built() && mazes@[cell_idx(
                        xx,
                        yy,
                    )].border_tuple() == structural_maze.spec_walls_at(xx, yy) && mazes@[cell_idx(
                        xx,
                        yy,
                    )].border_walled_except_mid() && open_interior(mazes@[cell_idx(xx, yy)])
                        == MAZE_SIZE * MAZE_SIZE - 1 && perfect(mazes@[cell_idx(xx, yy)]),
            decreases MAZE_SIZE - y,
        {
            let mut x: usize = 0;
            while x < MAZE_SIZE
                invariant
                    x <= MAZE_SIZE,
                    y < MAZE_SIZE,
                    structural_maze.wf(),
                    mazes@.len() == y * 5 + x,
                    forall|xx: int, yy: int|
                        0 <= xx < MAZE_SIZE && 0 <= yy < y ==> (#[trigger] mazes@[cell_idx(
                            xx,
                            yy,
                        )]).wf() && mazes@[cell_idx(xx, yy)].built() && mazes@[cell_idx(
                            xx,
                            yy,
                        )].border_tuple() == structural_maze.spec_walls_at(xx, yy) && mazes@[
                            cell_idx(xx, yy)].border_walled_except_mid() && open_interior(
                            mazes@[cell_idx(xx, yy)],
                        ) == MAZE_SIZE * MAZE_SIZE - 1 && perfect(mazes@[cell_idx(xx, yy)]),
                    forall|xx: int|
                        0 <= xx < x ==> (#[trigger] mazes@[cell_idx(xx, y as int)]).wf()
                            && mazes@[cell_idx(xx, y as int)].built() && mazes@[cell_idx(
                            xx,
                            y as int,
                        )].border_tuple() == structural_maze.spec_walls_at(xx, y as int)
                            && mazes@[cell_idx(xx, y as int)].border_walled_except_mid()
                            && open_interior(mazes@[cell_idx(xx, y as int)]) == MAZE_SIZE
                            * MAZE_SIZE - 1 && perfect(mazes@[cell_idx(xx, y as int)]),
                decreases MAZE_SIZE - x,
            {
                let c = Coord { x, y };
                let walls = structural_maze.get_walls_for_cell(c);
                mazes.push(Maze::gen_new_maze(walls));
                x += 1;
            }
            y += 1;
        }
        SuperMaze { structural_maze, mazes }
    }

    /// Regenerate only the sub-maze at `v`, re-deriving its border from the
    /// unchanged structural maze; every other slot keeps its exact value.
    pub fn reload(&mut self, v: Coord)
        requires
            old(self).wf(),
            in_grid(v),
        ensures
            final(self).wf(),
            final(self).structural_maze == old(self).structural_maze,
            final(self).mazes@.len() == old(self).mazes@.len(),
            forall|i: int|
                0 <= i < old(self).mazes@.len() && i != cell_idx(v.x as int, v.y as int)
                    ==> final(self).mazes@[i] == old(self).mazes@[i],
            final(self).slot_consistent(v.x as int, v.y as int),
    {
        let walls = self.structural_maze.get_walls_for_cell(v);
        let fresh = Maze::gen_new_maze(walls);
        self.mazes[v.y * MAZE_SIZE + v.x] = fresh;
        proof {
            assert forall|x: int, y: int|
                0 <= x < MAZE_SIZE && 0 <= y < MAZE_SIZE implies #[trigger] self.slot_consistent(
                x,
                y,
            ) by {
                if !(x == v.x as int && y == v.y as int) {
                    assert(cell_idx(x, y) != cell_idx(v.x as int, v.y as int));
                    assert(old(self).slot_consistent(x, y));
                }
            }
        }
    }

    /// A value-independent copy of the sub-maze at `v` for read-only
    /// inspection: mutating it cannot affect the stored grid.
    pub fn retrieve_maze(&self, v: Coord) -> (r: Maze)
        requires
            self.wf(),
            in_grid(v),
        ensures
            Maze::congruent(r, self.mazes@[cell_idx(v.x as int, v.y as int)]),
            r.wf(),
            r.built(),
            r.border_tuple() == self.structural_maze.spec_walls_at(v.x as int, v.y as int),
            r.border_walled_except_mid(),
            open_interior(r) == MAZE_SIZE * MAZE_SIZE - 1,
            perfect(r),
    {
        let r = self.mazes[v.y * MAZE_SIZE + v.x].duplicate();
        proof {
            assert(self.slot_consistent(v.x as int, v.y as int));
            let stored = self.mazes@[cell_idx(v.x as int, v.y as int)];
            lemma_congruent_facts(r, stored);
            assert forall|x: int, y: int|
                0 <= x < MAZE_SIZE && 0 <= y < MAZE_SIZE implies #[trigger] r.spec_tiles()[
                cell_idx(x, y)] == tile_of_walls_at(r, x, y) by {
                assert(stored.spec_tiles()[cell_idx(x, y)] == tile_of_walls_at(stored, x, y));
            }
        }
        r
    }
}

/// The tile that `build` assigns to cell `(x, y)` of `m`.
pub open spec fn tile_of_walls_at(m: Maze, x: int, y: int) -> Coord {
    crate::maze::tile_of(
        m.spec_wall(x, y, crate::direction::Direction::Left),
        m.spec_wall(x, y, crate::direction::Direction::Up),
        m.spec_wall(x, y, crate::direction::Direction::Right),
        m.spec_wall(x, y, crate::direction::Direction::Down),
    )
}

} // verus!

//! The border-padded, queryable maze: the interior walls produced by a
//! generation, wrapped with one extra row and column of border walls on
//! every side, plus the per-cell wall-configuration → tile-index cache that
//! rendering consumers read.

use vstd::prelude::*;

use crate::count::{lemma_open_count_equal, open_count};
use crate::direction::{is_unit_vector, Direction};
use crate::generator::{cell_idx, MazeGenerator};
use crate::rng::new_rng;
use crate::{copy_vec, filled_vec, in_grid, Coord, MAZE_SIZE};

verus! {

/// Flat index into the vertical wall grid of a maze: `MAZE_SIZE + 1` rows
/// of `MAZE_SIZE` entries; rows `0` and `MAZE_SIZE` are the top and bottom
/// border.
pub open spec fn mvw_idx(x: int, y: int) -> int {
    y * 5 + x
}

/// Flat index into the horizontal wall grid of a maze: `MAZE_SIZE` rows of
/// `MAZE_SIZE + 1` entries; columns `0` and `MAZE_SIZE` are the left and
/// right border.
pub open spec fn mhw_idx(x: int, y: int) -> int {
    y * 6 + x
}

/// The column (for up/down) or row (for left/right) of the border openings
/// that `set_outer` drives: the midpoint of a side.
pub open spec fn mid() -> int {
    (MAZE_SIZE as int) / 2
}

/// The tile-atlas coordinate assigned to a cell with the given wall
/// configuration; fixed by the rendering contract, one entry per
/// combination of the four booleans (left, up, right, down).
pub open spec fn tile_of(l: bool, u: bool, r: bool, d: bool) -> Coord {
    match (l, u, r, d) {
        (true, false, false, false) => Coord { x: 0, y: 1 },
        (false, true, false, false) => Coord { x: 1, y: 0 },
        (false, false, true, false) => Coord { x: 2, y: 1 },
        (false, false, false, true) => Coord { x: 1, y: 2 },
        (true, true, false, false) => Coord { x: 0, y: 0 },
        (false, true, true, false) => Coord { x: 2, y: 0 },
        (false, false, true, true) => Coord { x: 2, y: 2 },
        (true, false, false, true) => Coord { x: 0, y: 2 },
        (true, false, true, false) => Coord { x: 3, y: 0 },
        (false, true, false, true) => Coord { x: 3, y: 2 },
        (false, true, true, true) => Coord { x: 5, y: 1 },
        (true, false, true, true) => Coord { x: 4, y: 2 },
        (true, true, false, true) => Coord { x: 3, y: 1 },
        (true, true, true, false) => Coord { x: 4, y: 0 },
        (false, false, false, false) => Coord { x: 1, y: 1 },
        (true, true, true, true) => Coord { x: 4, y: 1 },
    }
}

/// The interior horizontal walls of a maze, row-major, border columns
/// stripped: entry `y * 4 + x` is the wall between `(x, y)` and
/// `(x + 1, y)`.
pub open spec fn interior_h_walls(m: Maze) -> Seq<bool> {
    Seq::new(20, |i: int| m.spec_hwalls()[(i / 4) * 6 + (i % 4) + 1])
}

/// How many interior (non-border) walls of `m` are open. A perfect maze
/// has exactly `MAZE_SIZE * MAZE_SIZE - 1` of them open: the edge count of
/// a spanning tree over the cells.
pub open spec fn open_interior(m: Maze) -> nat {
    open_count(m.spec_vwalls().subrange(5, 25)) + open_count(interior_h_walls(m))
}

/// `m` holds exactly the interior walls of the generation state `g`,
/// shifted one border row and column.
pub open spec fn padded_from(m: Maze, g: MazeGenerator) -> bool {
    &&& g.wf()
    &&& (forall|x: int, y: int|
        0 <= x < MAZE_SIZE && 1 <= y < MAZE_SIZE ==> #[trigger] m.vwall(x, y) == g.vwall(
            x,
            y - 1,
        ))
    &&& (forall|x: int, y: int|
        1 <= x < MAZE_SIZE && 0 <= y < MAZE_SIZE ==> #[trigger] m.hwall(x, y) == g.hwall(
            x - 1,
            y,
        ))
}

/// Border padding does not touch the interior walls, so the open interior
/// wall count of an extracted maze equals the generator's open wall count.
pub proof fn lemma_interior_open_count(g: MazeGenerator, m: Maze)
    requires
        g.wf(),
        m.wf(),
        forall|x: int, y: int|
            0 <= x < MAZE_SIZE && 1 <= y < MAZE_SIZE ==> #[trigger] m.vwall(x, y) == g.vwall(
                x,
                y - 1,
            ),
        forall|x: int, y: int|
            1 <= x < MAZE_SIZE && 0 <= y < MAZE_SIZE ==> #[trigger] m.hwall(x, y) == g.hwall(
                x - 1,
                y,
            ),
    ensures
        open_interior(m) == g.open_edges(),
{
    let vs = m.spec_vwalls().subrange(5, 25);
    assert forall|j: int| 0 <= j < 20 implies vs[j] == g.spec_vwalls()[j] by {
        vstd::arithmetic::div_mod::lemma_fundamental_div_mod(j, 5);
        let x = j % 5;
        let y = j / 5;
        assert(m.vwall(x, y + 1) == g.vwall(x, y));
        assert(mvw_idx(x, y + 1) == j + 5);
        assert(crate::generator::vw_idx(x, y) == j);
    }
    lemma_open_count_equal(vs, g.spec_vwalls());
    let hs = interior_h_walls(m);
    assert forall|j: int| 0 <= j < 20 implies hs[j] == g.spec_hwalls()[j] by {
        vstd::arithmetic::div_mod::lemma_fundamental_div_mod(j, 4);
        let x = j % 4;
        let y = j / 4;
        assert(m.hwall(x + 1, y) == g.hwall(x, y));
        assert(mhw_idx(x + 1, y) == y * 6 + x + 1);
        assert(crate::generator::hw_idx(x, y) == j);
    }
    lemma_open_count_equal(hs, g.spec_hwalls());
}

/// The four midpoint border openings lie outside the interior wall grids,
/// so changing them (and the tile cache) leaves the open interior wall
/// count untouched.
pub proof fn lemma_interior_open_count_border(m1: Maze, m2: Maze)
    requires
        m1.wf(),
        m2.wf(),
        forall|i: int|
            0 <= i < m1.spec_vwalls().len() && i != mvw_idx(mid(), 0) && i != mvw_idx(
                mid(),
                MAZE_SIZE as int,
            ) ==> m2.spec_vwalls()[i] == m1.spec_vwalls()[i],
        forall|i: int|
            0 <= i < m1.spec_hwalls().len() && i != mhw_idx(0, mid()) && i != mhw_idx(
                MAZE_SIZE as int,
                mid(),
            ) ==> m2.spec_hwalls()[i] == m1.spec_hwalls()[i],
    ensures
        open_interior(m2) == open_interior(m1),
{
    let vs1 = m1.spec_vwalls().subrange(5, 25);
    let vs2 = m2.spec_vwalls().subrange(5, 25);
    assert forall|j: int| 0 <= j < 20 implies vs2[j] == vs1[j] by {
        assert(mvw_idx(mid(), 0) == 2);
        assert(mvw_idx(mid(), MAZE_SIZE as int) == 27);
        assert(m2.spec_vwalls()[j + 5] == m1.spec_vwalls()[j + 5]);
    }
    lemma_open_count_equal(vs2, vs1);
    let hs1 = interior_h_walls(m1);
    let hs2 = interior_h_walls(m2);
    assert forall|j: int| 0 <= j < 20 implies hs2[j] == hs1[j] by {
        vstd::arithmetic::div_mod::lemma_fundamental_div_mod(j, 4);
        let k = (j / 4) * 6 + (j % 4) + 1;
        assert(mhw_idx(0, mid()) == 12);
        assert(mhw_idx(MAZE_SIZE as int, mid()) == 17);
        assert(1 <= (j % 4) + 1 <= 4);
        assert(k != 12 && k != 17);
        assert(0 <= k < 30);
        assert(m2.spec_hwalls()[k] == m1.spec_hwalls()[k]);
    }
    lemma_open_count_equal(hs2, hs1);
}

/// Changing only the four midpoint border walls leaves every interior
/// wall in place, so the padding relation to the generation state holds on.
pub proof fn lemma_padded_from_border(m1: Maze, m2: Maze, g: MazeGenerator)
    requires
        m1.wf(),
        m2.wf(),
        padded_from(m1, g),
        forall|i: int|
            0 <= i < m1.spec_vwalls().len() && i != mvw_idx(mid(), 0) && i != mvw_idx(
                mid(),
                MAZE_SIZE as int,
            ) ==> m2.spec_vwalls()[i] == m1.spec_vwalls()[i],
        forall|i: int|
            0 <= i < m1.spec_hwalls().len() && i != mhw_idx(0, mid()) && i != mhw_idx(
                MAZE_SIZE as int,
                mid(),
            ) ==> m2.spec_hwalls()[i] == m1.spec_hwalls()[i],
    ensures
        padded_from(m2, g),
{
    assert forall|x: int, y: int|
        0 <= x < MAZE_SIZE && 1 <= y < MAZE_SIZE implies #[trigger] m2.vwall(x, y) == g.vwall(
        x,
        y - 1,
    ) by {
        assert(mvw_idx(mid(), 0) == 2);
        assert(mvw_idx(mid(), MAZE_SIZE as int) == 27);
        assert(5 <= mvw_idx(x, y) < 25);
        assert(m2.spec_vwalls()[mvw_idx(x, y)] == m1.spec_vwalls()[mvw_idx(x, y)]);
        assert(m1.vwall(x, y) == g.vwall(x, y - 1));
    }
    assert forall|x: int, y: int|
        1 <= x < MAZE_SIZE && 0 <= y < MAZE_SIZE implies #[trigger] m2.hwall(x, y) == g.hwall(
        x - 1,
        y,
    ) by {
        assert(mhw_idx(0, mid()) == 12);
        assert(mhw_idx(MAZE_SIZE as int, mid()) == 17);
        assert(mhw_idx(x, y) != 12 && mhw_idx(x, y) != 17);
        assert(m2.spec_hwalls()[mhw_idx(x, y)] == m1.spec_hwalls()[mhw_idx(x, y)]);
        assert(m1.hwall(x, y) == g.hwall(x - 1, y));
    }
}

/// A perfect maze: its interior walls are those of a completed generation
/// whose open walls connect every cell to a seed — a spanning tree over
/// the cells.
pub open spec fn perfect(m: Maze) -> bool {
    exists|g: MazeGenerator, s: Coord|
        #[trigger] padded_from(m, g) && in_grid(s) && #[trigger] crate::generator::spans(g, s)
}

/// After `set_outer` on a fully walled border, every border wall other
/// than the four midpoint openings is still present.
pub proof fn lemma_border_except_mid(m1: Maze, m2: Maze)
    requires
        m1.wf(),
        m2.wf(),
        m1.border_walled(),
        forall|i: int|
            0 <= i < m1.spec_vwalls().len() && i != mvw_idx(mid(), 0) && i != mvw_idx(
                mid(),
                MAZE_SIZE as int,
            ) ==> m2.spec_vwalls()[i] == m1.spec_vwalls()[i],
        forall|i: int|
            0 <= i < m1.spec_hwalls().len() && i != mhw_idx(0, mid()) && i != mhw_idx(
                MAZE_SIZE as int,
                mid(),
            ) ==> m2.spec_hwalls()[i] == m1.spec_hwalls()[i],
    ensures
        m2.border_walled_except_mid(),
{
    assert forall|x: int|
        0 <= x < MAZE_SIZE && x != mid() implies #[trigger] m2.vwall(x, 0) && m2.vwall(
        x,
        MAZE_SIZE as int,
    ) by {
        assert(mvw_idx(mid(), 0) == 2);
        assert(mvw_idx(mid(), MAZE_SIZE as int) == 27);
        assert(m2.spec_vwalls()[mvw_idx(x, 0)] == m1.spec_vwalls()[mvw_idx(x, 0)]);
        assert(m2.spec_vwalls()[mvw_idx(x, MAZE_SIZE as int)] == m1.spec_vwalls()[mvw_idx(
            x,
            MAZE_SIZE as int,
        )]);
        assert(m1.vwall(x, 0));
        assert(m1.vwall(x, MAZE_SIZE as int));
    }
    assert forall|y: int|
        0 <= y < MAZE_SIZE && y != mid() implies #[trigger] m2.hwall(0, y) && m2.hwall(
        MAZE_SIZE as int,
        y,
    ) by {
        assert(mhw_idx(0, mid()) == 12);
        assert(mhw_idx(MAZE_SIZE as int, mid()) == 17);
        assert(m2.spec_hwalls()[mhw_idx(0, y)] == m1.spec_hwalls()[mhw_idx(0, y)]);
        assert(m2.spec_hwalls()[mhw_idx(MAZE_SIZE as int, y)] == m1.spec_hwalls()[mhw_idx(
            MAZE_SIZE as int,
            y,
        )]);
        assert(m1.hwall(0, y));
        assert(m1.hwall(MAZE_SIZE as int, y));
    }
}

/// Mazes with equal walls and tiles share every derived fact: interior
/// count, border shape, tile agreement and perfection.
pub proof fn lemma_congruent_facts(a: Maze, b: Maze)
    requires
        Maze::congruent(a, b),
        b.wf(),
    ensures
        a.wf(),
        open_interior(a) == open_interior(b),
        a.border_tuple() == b.border_tuple(),
        a.border_walled_except_mid() <==> b.border_walled_except_mid(),
        perfect(b) ==> perfect(a),
{
    assert(interior_h_walls(a) =~= interior_h_walls(b));
    assert(a.spec_vwalls().subrange(5, 25) =~= b.spec_vwalls().subrange(5, 25));
    if b.border_walled_except_mid() {
        assert forall|x: int|
            0 <= x < MAZE_SIZE && x != mid() implies #[trigger] a.vwall(x, 0) && a.vwall(
            x,
            MAZE_SIZE as int,
        ) by {
            assert(b.vwall(x, 0));
            assert(b.vwall(x, MAZE_SIZE as int));
        }
        assert forall|y: int|
            0 <= y < MAZE_SIZE && y != mid() implies #[trigger] a.hwall(0, y) && a.hwall(
            MAZE_SIZE as int,
            y,
        ) by {
            assert(b.hwall(0, y));
            assert(b.hwall(MAZE_SIZE as int, y));
        }
    }
    if a.border_walled_except_mid() {
        assert forall|x: int|
            0 <= x < MAZE_SIZE && x != mid() implies #[trigger] b.vwall(x, 0) && b.vwall(
            x,
            MAZE_SIZE as int,
        ) by {
            assert(a.vwall(x, 0));
            assert(a.vwall(x, MAZE_SIZE as int));
        }
        assert forall|y: int|
            0 <= y < MAZE_SIZE && y != mid() implies #[trigger] b.hwall(0, y) && b.hwall(
            MAZE_SIZE as int,
            y,
        ) by {
            assert(a.hwall(0, y));
            assert(a.hwall(MAZE_SIZE as int, y));
        }
    }
    if perfect(b) {
        let (g, se) = choose|g: MazeGenerator, se: Coord|
            #[trigger] padded_from(b, g) && in_grid(se) && #[trigger] crate::generator::spans(
                g,
                se,
            );
        assert forall|x: int, y: int|
            0 <= x < MAZE_SIZE && 1 <= y < MAZE_SIZE implies #[trigger] a.vwall(x, y) == g.vwall(
            x,
            y - 1,
        ) by {
            assert(b.vwall(x, y) == g.vwall(x, y - 1));
        }
        assert forall|x: int, y: int|
            1 <= x < MAZE_SIZE && 0 <= y < MAZE_SIZE implies #[trigger] a.hwall(x, y) == g.hwall(
            x - 1,
            y,
        ) by {
            assert(b.hwall(x, y) == g.hwall(x - 1, y));
        }
        assert(padded_from(a, g) && in_grid(se) && crate::generator::spans(g, se));
    }
}

/// The immutable public maze representation: border-padded wall grids and
/// the derived tile cache.
pub struct Maze {
    vertical_walls: Vec<bool>,
    horizontal_walls: Vec<bool>,
    cells: Vec<Coord>,
}

impl Maze {
    /// The vertical walls (border rows included) as a flat sequence.
    pub closed spec fn spec_vwalls(self) -> Seq<bool> {
        self.vertical_walls@
    }

    /// The horizontal walls (border columns included) as a flat sequence.
    pub closed spec fn spec_hwalls(self) -> Seq<bool> {
        self.horizontal_walls@
    }

    /// The cached tile indices as a flat sequence.
    pub closed spec fn spec_tiles(self) -> Seq<Coord> {
        self.cells@
    }

    pub open spec fn wf(self) -> bool {
        &&& self.spec_vwalls().len() == (MAZE_SIZE + 1) * MAZE_SIZE
        &&& self.spec_hwalls().len() == MAZE_SIZE * (MAZE_SIZE + 1)
        &&& self.spec_tiles().len() == MAZE_SIZE * MAZE_SIZE
    }

    /// The vertical wall above cell `(x, y)` (equally: below `(x, y - 1)`).
    pub open spec fn vwall(self, x: int, y: int) -> bool {
        self.spec_vwalls()[mvw_idx(x, y)]
    }

    /// The horizontal wall left of cell `(x, y)` (equally: right of
    /// `(x - 1, y)`).
    pub open spec fn hwall(self, x: int, y: int) -> bool {
        self.spec_hwalls()[mhw_idx(x, y)]
    }

    /// The wall on side `d` of cell `(x, y)`.
    pub open spec fn spec_wall(self, x: int, y: int, d: Direction) -> bool {
        match d {
            Direction::Up => self.vwall(x, y),
            Direction::Down => self.vwall(x, y + 1),
            Direction::Left => self.hwall(x, y),
            Direction::Right => self.hwall(x + 1, y),
        }
    }

    /// The four wall booleans of cell `(x, y)`: (left, up, right, down).
    pub open spec fn spec_walls_at(self, x: int, y: int) -> (bool, bool, bool, bool) {
        (
            self.spec_wall(x, y, Direction::Left),
            self.spec_wall(x, y, Direction::Up),
            self.spec_wall(x, y, Direction::Right),
            self.spec_wall(x, y, Direction::Down),
        )
    }

    /// The four border openings that `set_outer` drives, one per side at
    /// the midpoint of that side: (left, up, right, down).
    pub open spec fn border_tuple(self) -> (bool, bool, bool, bool) {
        (
            self.hwall(0, mid()),
            self.vwall(mid(), 0),
            self.hwall(MAZE_SIZE as int, mid()),
            self.vwall(mid(), MAZE_SIZE as int),
        )
    }

    /// Every border wall is present but possibly the four midpoint
    /// openings that `set_outer` drives.
    pub open spec fn border_walled_except_mid(self) -> bool {
        &&& (forall|x: int|
            0 <= x < MAZE_SIZE && x != mid() ==> #[trigger] self.vwall(x, 0) && self.vwall(
                x,
                MAZE_SIZE as int,
            ))
        &&& (forall|y: int|
            0 <= y < MAZE_SIZE && y != mid() ==> #[trigger] self.hwall(0, y) && self.hwall(
                MAZE_SIZE as int,
                y,
            ))
    }

    /// Every border wall is present, the midpoints included.
    pub open spec fn border_walled(self) -> bool {
        &&& (forall|x: int|
            0 <= x < MAZE_SIZE ==> #[trigger] self.vwall(x, 0) && self.vwall(x, MAZE_SIZE as int))
        &&& (forall|y: int|
            0 <= y < MAZE_SIZE ==> #[trigger] self.hwall(0, y) && self.hwall(MAZE_SIZE as int, y))
    }

    /// The tile cache agrees with the wall grids everywhere.
    pub open spec fn built(self) -> bool {
        forall|x: int, y: int|
            0 <= x < MAZE_SIZE && 0 <= y < MAZE_SIZE ==> #[trigger] self.spec_tiles()[cell_idx(
                x,
                y,
            )] == tile_of(
                self.spec_wall(x, y, Direction::Left),
                self.spec_wall(x, y, Direction::Up),
                self.spec_wall(x, y, Direction::Right),
                self.spec_wall(x, y, Direction::Down),
            )
    }

    /// The two mazes hold the same walls and tiles.
    pub open spec fn congruent(a: Maze, b: Maze) -> bool {
        &&& a.spec_vwalls() == b.spec_vwalls()
        &&& a.spec_hwalls() == b.spec_hwalls()
        &&& a.spec_tiles() == b.spec_tiles()
    }

    /// Wrap a generator's interior walls with a fully walled border; the
    /// tile cache starts all-zero and is only filled by `build`. The
    /// generator's grids are row-major, so each padded grid is its rows
    /// framed by border entries.
    pub fn from_interior(vert: &Vec<bool>, horiz: &Vec<bool>) -> (m: Maze)
        requires
            vert@.len() == (MAZE_SIZE - 1) * MAZE_SIZE,
            horiz@.len() == MAZE_SIZE * (MAZE_SIZE - 1),
        ensures
            m.wf(),
            m.border_walled(),
            forall|x: int, y: int|
                0 <= x < MAZE_SIZE && 1 <= y < MAZE_SIZE ==> #[trigger] m.vwall(x, y) == vert@[
                    crate::generator::vw_idx(x, y - 1)],
            forall|x: int, y: int|
                1 <= x < MAZE_SIZE && 0 <= y < MAZE_SIZE ==> #[trigger] m.hwall(x, y) == horiz@[
                    crate::generator::hw_idx(x - 1, y)],
            forall|x: int, y: int|
                0 <= x < MAZE_SIZE && 0 <= y < MAZE_SIZE ==> #[trigger] m.spec_tiles()[cell_idx(
                    x,
                    y,
                )] == (Coord { x: 0, y: 0 }),
    {
        proof {
            assert((MAZE_SIZE - 1) * MAZE_SIZE == 20);
            assert(MAZE_SIZE * (MAZE_SIZE - 1) == 20);
            assert((MAZE_SIZE + 1) * MAZE_SIZE == 30);
            assert(MAZE_SIZE * (MAZE_SIZE + 1) == 30);
            assert(MAZE_SIZE * MAZE_SIZE == 25);
        }
        // vertical grid: one all-true border row, the interior rows in the
        // generator's own order, one all-true border row
        let mut vertical_walls: Vec<bool> = filled_vec(MAZE_SIZE, true);
        let mut i: usize = 0;
        while i < MAZE_SIZE * (MAZE_SIZE - 1)
            invariant
                i <= 20,
                vertical_walls@.len() == MAZE_SIZE + i,
                forall|j: int| 0 <= j < MAZE_SIZE ==> vertical_walls@[j] == true,
                forall|j: int|
                    MAZE_SIZE <= j < MAZE_SIZE + i ==> vertical_walls@[j] == vert@[j - 5],
            decreases 20 - i,
        {
            vertical_walls.push(grid_read(vert, i));
            i += 1;
        }
        let mut k: usize = 0;
        while k < MAZE_SIZE
            invariant
                k <= MAZE_SIZE,
                vertical_walls@.len() == 25 + k,
                forall|j: int| 0 <= j < MAZE_SIZE ==> vertical_walls@[j] == true,
                forall|j: int| MAZE_SIZE <= j < 25 ==> vertical_walls@[j] == vert@[j - 5],
                forall|j: int| 25 <= j < 25 + k ==> vertical_walls@[j] == true,
            decreases MAZE_SIZE - k,
        {
            vertical_walls.push(true);
            k += 1;
        }
        // horizontal grid: each generator row framed by two border entries
        let mut horizontal_walls: Vec<bool> = Vec::new();
        let mut y: usize = 0;
        while y < MAZE_SIZE
            invariant
                y <= MAZE_SIZE,
                horizontal_walls@.len() == y * 6,
                forall|yy: int|
                    0 <= yy < y ==> #[trigger] horizontal_walls@[mhw_idx(0, yy)] == true
                        && horizontal_walls@[mhw_idx(MAZE_SIZE as int, yy)] == true,
                forall|xx: int, yy: int|
                    1 <= xx < MAZE_SIZE && 0 <= yy < y ==> #[trigger] horizontal_walls@[mhw_idx(
                        xx,
                        yy,
                    )] == horiz@[crate::generator::hw_idx(xx - 1, yy)],
            decreases MAZE_SIZE - y,
        {
            let ghost h0 = horizontal_walls@;
            horizontal_walls.push(true);
            proof {
                assert forall|yy: int| 0 <= yy < y implies #[trigger] horizontal_walls@[mhw_idx(
                    0,
                    yy,
                )] == true && horizontal_walls@[mhw_idx(MAZE_SIZE as int, yy)] == true by {
                    assert(yy * 6 + 5 < y * 6);
                    assert(h0[mhw_idx(0, yy)] == true);
                    assert(h0[mhw_idx(MAZE_SIZE as int, yy)] == true);
                    assert(horizontal_walls@ == h0.push(true));
                    assert(horizontal_walls@[mhw_idx(0, yy)] == h0[mhw_idx(0, yy)]);
                    assert(horizontal_walls@[mhw_idx(MAZE_SIZE as int, yy)] == h0[mhw_idx(
                        MAZE_SIZE as int,
                        yy,
                    )]);
                }
                assert forall|xx: int, yy: int|
                    1 <= xx < MAZE_SIZE && 0 <= yy < y implies #[trigger] horizontal_walls@[
                    mhw_idx(xx, yy)] == horiz@[crate::generator::hw_idx(xx - 1, yy)] by {
                    assert(yy * 6 + xx < y * 6);
                    assert(h0[mhw_idx(xx, yy)] == horiz@[crate::generator::hw_idx(xx - 1, yy)]);
                }
            }
            let mut x: usize = 0;
            while x < MAZE_SIZE - 1
                invariant
                    x <= MAZE_SIZE - 1,
                    y < MAZE_SIZE,
                    horizontal_walls@.len() == y * 6 + 1 + x,
                    forall|yy: int|
                        0 <= yy < y ==> #[trigger] horizontal_walls@[mhw_idx(0, yy)] == true
                            && horizontal_walls@[mhw_idx(MAZE_SIZE as int, yy)] == true,
                    forall|xx: int, yy: int|
                        1 <= xx < MAZE_SIZE && 0 <= yy < y ==> #[trigger] horizontal_walls@[
                            mhw_idx(xx, yy)] == horiz@[crate::generator::hw_idx(xx - 1, yy)],
                    horizontal_walls@[mhw_idx(0, y as int)] == true,
                    forall|xx: int|
                        1 <= xx <= x ==> #[trigger] horizontal_walls@[mhw_idx(xx, y as int)]
                            == horiz@[crate::generator::hw_idx(xx - 1, y as int)],
                decreases MAZE_SIZE - 1 - x,
            {
                proof {
                    assert(0 <= y * ((MAZE_SIZE - 1) as int) + x < 20) by (nonlinear_arith)
                        requires
                            0 <= y < 5,
                            0 <= x < 4,
                    ;
                }
                let src = y * (MAZE_SIZE - 1) + x;
                proof {
                    assert(src == crate::generator::hw_idx(x as int, y as int));
                }
                let ghost h1 = horizontal_walls@;
                horizontal_walls.push(grid_read(horiz, src));
                proof {
                    assert forall|yy: int| 0 <= yy < y implies #[trigger] horizontal_walls@[
                        mhw_idx(0, yy)] == true && horizontal_walls@[mhw_idx(
                        MAZE_SIZE as int,
                        yy,
                    )] == true by {
                        assert(yy * 6 + 5 < y * 6);
                        assert(h1[mhw_idx(0, yy)] == true);
                        assert(h1[mhw_idx(MAZE_SIZE as int, yy)] == true);
                    }
                    assert forall|xx: int, yy: int|
                        1 <= xx < MAZE_SIZE && 0 <= yy < y implies #[trigger] horizontal_walls@[
                        mhw_idx(xx, yy)] == horiz@[crate::generator::hw_idx(xx - 1, yy)] by {
                        assert(yy * 6 + xx < y * 6);
                        assert(h1[mhw_idx(xx, yy)] == horiz@[crate::generator::hw_idx(
                            xx - 1,
                            yy,
                        )]);
                    }
                    assert forall|xx: int|
                        1 <= xx <= x + 1 implies #[trigger] horizontal_walls@[mhw_idx(
                        xx,
                        y as int,
                    )] == horiz@[crate::generator::hw_idx(xx - 1, y as int)] by {
                        if xx <= x {
                            assert(h1[mhw_idx(xx, y as int)] == horiz@[crate::generator::hw_idx(
                                xx - 1,
                                y as int,
                            )]);
                        }
                    }
                }
                x += 1;
            }
            let ghost h2 = horizontal_walls@;
            horizontal_walls.push(true);
            proof {
                assert forall|yy: int| 0 <= yy < y + 1 implies #[trigger] horizontal_walls@[
                    mhw_idx(0, yy)] == true && horizontal_walls@[mhw_idx(MAZE_SIZE as int, yy)]
                    == true by {
                    if yy < y {
                        assert(yy * 6 + 5 < y * 6);
                        assert(h2[mhw_idx(0, yy)] == true);
                        assert(h2[mhw_idx(MAZE_SIZE as int, yy)] == true);
                    } else {
                        assert(h2[mhw_idx(0, yy)] == true);
                    }
                }
                assert forall|xx: int, yy: int|
                    1 <= xx < MAZE_SIZE && 0 <= yy < y + 1 implies #[trigger] horizontal_walls@[
                    mhw_idx(xx, yy)] == horiz@[crate::generator::hw_idx(xx - 1, yy)] by {
                    assert(yy * 6 + xx < y * 6 + 6);
                    assert(h2[mhw_idx(xx, yy)] == horiz@[crate::generator::hw_idx(xx - 1, yy)]);
                }
            }
            y += 1;
        }
        let m = Maze {
            vertical_walls,
            horizontal_walls,
            cells: filled_vec(MAZE_SIZE * MAZE_SIZE, Coord { x: 0, y: 0 }),
        };
        proof {
            assert forall|x: int, y: int|
                0 <= x < MAZE_SIZE && 1 <= y < MAZE_SIZE implies #[trigger] m.vwall(x, y)
                == vert@[crate::generator::vw_idx(x, y - 1)] by {
                assert(m.spec_vwalls()[y * 5 + x] == vert@[y * 5 + x - 5]);
            }
        }
        m
    }

    /// Overwrite the four midpoint border walls, one per side; all other
    /// walls and the tile cache are untouched.
    pub fn set_outer(&mut self, left: bool, up: bool, right: bool, down: bool)
        requires
            old(self).wf(),
        ensures
            final(self).wf(),
            final(self).border_tuple() == (left, up, right, down),
            forall|i: int|
                0 <= i < old(self).spec_vwalls().len() && i != mvw_idx(mid(), 0) && i != mvw_idx(
                    mid(),
                    MAZE_SIZE as int,
                ) ==> final(self).spec_vwalls()[i] == old(self).spec_vwalls()[i],
            forall|i: int|
                0 <= i < old(self).spec_hwalls().len() && i != mhw_idx(0, mid()) && i != mhw_idx(
                    MAZE_SIZE as int,
                    mid(),
                ) ==> final(self).spec_hwalls()[i] == old(self).spec_hwalls()[i],
            final(self).spec_tiles() == old(self).spec_tiles(),
    {
        proof {
            assert(MAZE_SIZE / 2 == 2);
            assert((MAZE_SIZE / 2) * ((MAZE_SIZE + 1) as int) < 30);
            assert((MAZE_SIZE / 2) * ((MAZE_SIZE + 1) as int) + MAZE_SIZE < 30);
            assert((MAZE_SIZE as int) * (MAZE_SIZE as int) + MAZE_SIZE / 2 < 30);
        }
        let m = MAZE_SIZE / 2;
        self.horizontal_walls[m * (MAZE_SIZE + 1)] = left;
        self.vertical_walls[m] = up;
        self.horizontal_walls[m * (MAZE_SIZE + 1) + MAZE_SIZE] = right;
        self.vertical_walls[MAZE_SIZE * MAZE_SIZE + m] = down;
    }

    /// The wall on side `direction` of cell `coords`.
    pub fn get_wall(&self, coords: Coord, direction: Direction) -> (r: bool)
        requires
            self.wf(),
            in_grid(coords),
        ensures
            r == self.spec_wall(coords.x as int, coords.y as int, direction),
    {
        proof {
            assert(coords.y * ((MAZE_SIZE + 1) as int) + coords.x + 1 < 30) by (nonlinear_arith)
                requires
                    coords.y < 5,
                    coords.x < 5,
            ;
            assert((coords.y + 1) * (MAZE_SIZE as int) + coords.x < 30) by (nonlinear_arith)
                requires
                    coords.y < 5,
                    coords.x < 5,
            ;
        }
        match direction {
            Direction::Up => self.vertical_walls[coords.y * MAZE_SIZE + coords.x],
            Direction::Down => self.vertical_walls[(coords.y + 1) * MAZE_SIZE + coords.x],
            Direction::Left => self.horizontal_walls[coords.y * (MAZE_SIZE + 1) + coords.x],
            Direction::Right => self.horizontal_walls[coords.y * (MAZE_SIZE + 1) + coords.x + 1],
        }
    }

    /// The wall on the side given by a raw unit vector, as the rendering
    /// layer queries it.
    pub fn get_wall_g(&self, coords: Coord, dx: i32, dy: i32) -> (r: bool)
        requires
            self.wf(),
            in_grid(coords),
            is_unit_vector(dx as int, dy as int),
        ensures
            r == self.spec_wall(
                coords.x as int,
                coords.y as int,
                crate::direction::dir_of_vector(dx as int, dy as int),
            ),
    {
        self.get_wall(coords, Direction::from_vector(dx, dy))
    }

    /// The four wall booleans of `v`: (left, up, right, down).
    pub fn get_walls_for_cell(&self, v: Coord) -> (r: (bool, bool, bool, bool))
        requires
            self.wf(),
            in_grid(v),
        ensures
            r == self.spec_walls_at(v.x as int, v.y as int),
    {
        (
            self.get_wall(v, Direction::Left),
            self.get_wall(v, Direction::Up),
            self.get_wall(v, Direction::Right),
            self.get_wall(v, Direction::Down),
        )
    }

    /// The tile assigned to the given wall configuration — the exhaustive
    /// sixteen-entry lookup of the rendering contract.
    pub fn tile_for_walls(l: bool, u: bool, r: bool, d: bool) -> (t: Coord)
        ensures
            t == tile_of(l, u, r, d),
    {
        match (l, u, r, d) {
            (true, false, false, false) => Coord { x: 0, y: 1 },
            (false, true, false, false) => Coord { x: 1, y: 0 },
            (false, false, true, false) => Coord { x: 2, y: 1 },
            (false, false, false, true) => Coord { x: 1, y: 2 },
            (true, true, false, false) => Coord { x: 0, y: 0 },
            (false, true, true, false) => Coord { x: 2, y: 0 },
            (false, false, true, true) => Coord { x: 2, y: 2 },
            (true, false, false, true) => Coord { x: 0, y: 2 },
            (true, false, true, false) => Coord { x: 3, y: 0 },
            (false, true, false, true) => Coord { x: 3, y: 2 },
            (false, true, true, true) => Coord { x: 5, y: 1 },
            (true, false, true, true) => Coord { x: 4, y: 2 },
            (true, true, false, true) => Coord { x: 3, y: 1 },
            (true, true, true, false) => Coord { x: 4, y: 0 },
            (false, false, false, false) => Coord { x: 1, y: 1 },
            (true, true, true, true) => Coord { x: 4, y: 1 },
        }
    }

    /// Fill the tile cache from the current wall state.
    pub fn build(&mut self)
        requires
            old(self).wf(),
        ensures
            final(self).wf(),
            final(self).spec_vwalls() == old(self).spec_vwalls(),
            final(self).spec_hwalls() == old(self).spec_hwalls(),
            final(self).built(),
    {
        let mut y: usize = 0;
        while y < MAZE_SIZE
            invariant
                y <= MAZE_SIZE,
                self.wf(),
                self.spec_vwalls() == old(self).spec_vwalls(),
                self.spec_hwalls() == old(self).spec_hwalls(),
                forall|xx: int, yy: int|
                    0 <= xx < MAZE_SIZE && 0 <= yy < y ==> #[trigger] self.spec_tiles()[cell_idx(
                        xx,
                        yy,
                    )] == tile_of(
                        self.spec_wall(xx, yy, Direction::Left),
                        self.spec_wall(xx, yy, Direction::Up),
                        self.spec_wall(xx, yy, Direction::Right),
                        self.spec_wall(xx, yy, Direction::Down),
                    ),
            decreases MAZE_SIZE - y,
        {
            let mut x: usize = 0;
            while x < MAZE_SIZE
                invariant
                    x <= MAZE_SIZE,
                    y < MAZE_SIZE,
                    self.wf(),
                    self.spec_vwalls() == old(self).spec_vwalls(),
                    self.spec_hwalls() == old(self).spec_hwalls(),
                    forall|xx: int, yy: int|
                        0 <= xx < MAZE_SIZE && 0 <= yy < y ==> #[trigger] self.spec_tiles()[
                            cell_idx(xx, yy)] == tile_of(
                            self.spec_wall(xx, yy, Direction::Left),
                            self.spec_wall(xx, yy, Direction::Up),
                            self.spec_wall(xx, yy, Direction::Right),
                            self.spec_wall(xx, yy, Direction::Down),
                        ),
                    forall|xx: int|
                        0 <= xx < x ==> #[trigger] self.spec_tiles()[cell_idx(xx, y as int)]
                            == tile_of(
                            self.spec_wall(xx, y as int, Direction::Left),
                            self.spec_wall(xx, y as int, Direction::Up),
                            self.spec_wall(xx, y as int, Direction::Right),
                            self.spec_wall(xx, y as int, Direction::Down),
                        ),
                decreases MAZE_SIZE - x,
            {
                let c = Coord { x, y };
                let walls = self.get_walls_for_cell(c);
                let t = Maze::tile_for_walls(walls.0, walls.1, walls.2, walls.3);
                self.cells[y * MAZE_SIZE + x] = t;
                x += 1;
            }
            y += 1;
        }
    }

    /// The cached tile index of cell `v`; `build` must have run.
    pub fn get(&self, v: Coord) -> (r: Coord)
        requires
            self.wf(),
            in_grid(v),
        ensures
            r == self.spec_tiles()[cell_idx(v.x as int, v.y as int)],
    {
        self.cells[v.y * MAZE_SIZE + v.x]
    }

    /// The directions in which a traversal can leave `coords`: inside the
    /// grid and not blocked by a wall.
    pub fn possible_directions(&self, coords: Coord) -> (r: Vec<Direction>)
        requires
            self.wf(),
            in_grid(coords),
        ensures
            r@ == spec_open_directions(*self, coords),
    {
        let mut dirs: Vec<Direction> = Vec::new();
        if coords.y != 0 && !self.get_wall(coords, Direction::Up) {
            dirs.push(Direction::Up);
        }
        if coords.x != 0 && !self.get_wall(coords, Direction::Left) {
            dirs.push(Direction::Left);
        }
        if coords.y != MAZE_SIZE - 1 && !self.get_wall(coords, Direction::Down) {
            dirs.push(Direction::Down);
        }
        if coords.x != MAZE_SIZE - 1 && !self.get_wall(coords, Direction::Right) {
            dirs.push(Direction::Right);
        }
        dirs
    }

    /// A value-independent copy: mutating the copy cannot affect this maze.
    pub fn duplicate(&self) -> (r: Maze)
        ensures
            Maze::congruent(r, *self),
    {
        Maze {
            vertical_walls: copy_vec(&self.vertical_walls),
            horizontal_walls: copy_vec(&self.horizontal_walls),
            cells: copy_vec(&self.cells),
        }
    }

    /// Generate a fresh maze: run the spanning-tree walk and pad it with a
    /// fully walled border. The tile cache is not derived yet; the interior
    /// walls are those of a completed generation whose open walls connect
    /// every cell, and exactly `MAZE_SIZE * MAZE_SIZE - 1` of them are open
    /// — a spanning tree over the cells.
    pub fn new() -> (m: Maze)
        ensures
            m.wf(),
            m.border_walled(),
            open_interior(m) == MAZE_SIZE * MAZE_SIZE - 1,
            perfect(m),
            forall|x: int, y: int|
                0 <= x < MAZE_SIZE && 0 <= y < MAZE_SIZE ==> #[trigger] m.spec_tiles()[cell_idx(
                    x,
                    y,
                )] == (Coord { x: 0, y: 0 }),
    {
        let mut rng = new_rng();
        let maze_gen = MazeGenerator::new(&mut rng);
        let m = maze_gen.extract_maze();
        proof {
            lemma_interior_open_count(maze_gen, m);
            assert(padded_from(m, maze_gen));
        }
        m
    }

    /// Generate a fresh maze, force its border openings to the given
    /// connector tuple, and derive the tile cache. Only border walls are
    /// touched after generation, so the interior is still a spanning tree.
    pub fn gen_new_maze(connector_walls: (bool, bool, bool, bool)) -> (m: Maze)
        ensures
            m.wf(),
            m.built(),
            m.border_tuple() == connector_walls,
            m.border_walled_except_mid(),
            open_interior(m) == MAZE_SIZE * MAZE_SIZE - 1,
            perfect(m),
    {
        let mut new_maze = Maze::new();
        let ghost m0 = new_maze;
        let (left, up, right, down) = connector_walls;
        new_maze.set_outer(left, up, right, down);
        new_maze.build();
        proof {
            lemma_interior_open_count_border(m0, new_maze);
            lemma_border_except_mid(m0, new_maze);
            let (g, s) = choose|g: MazeGenerator, s: Coord|
                #[trigger] padded_from(m0, g) && in_grid(s) && #[trigger] crate::generator::spans(
                    g,
                    s,
                );
            lemma_padded_from_border(m0, new_maze, g);
            assert(padded_from(new_maze, g) && in_grid(s) && crate::generator::spans(g, s));
        }
        new_maze
    }
}

/// The legal traversal moves out of `coords`, in the fixed query order
/// up, left, down, right.
pub open spec fn spec_open_directions(m: Maze, coords: Coord) -> Seq<Direction> {
    let x = coords.x as int;
    let y = coords.y as int;
    let s0 = Seq::<Direction>::empty();
    let s1 = if y != 0 && !m.spec_wall(x, y, Direction::Up) {
        s0.push(Direction::Up)
    } else {
        s0
    };
    let s2 = if x != 0 && !m.spec_wall(x, y, Direction::Left) {
        s1.push(Direction::Left)
    } else {
        s1
    };
    let s3 = if y != MAZE_SIZE - 1 && !m.spec_wall(x, y, Direction::Down) {
        s2.push(Direction::Down)
    } else {
        s2
    };
    if x != MAZE_SIZE - 1 && !m.spec_wall(x, y, Direction::Right) {
        s3.push(Direction::Right)
    } else {
        s3
    }
}

/// Read one entry of a flat wall grid.
fn grid_read(v: &Vec<bool>, i: usize) -> (r: bool)
    requires
        i < v@.len(),
    ensures
        r == v@[i as int],
{
    v[i]
}

} // verus!

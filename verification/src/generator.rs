//! Maze generation: a loop-erased random walk (Wilson's algorithm) over the
//! grid of cells. The generator starts with every interior wall present and
//! every cell unvisited, grows a spanning tree of open walls, and is then
//! extracted into a border-padded [`crate::maze::Maze`].
//!
//! The central verified fact: generation opens exactly
//! `MAZE_SIZE * MAZE_SIZE - 1` interior walls — the edge count of a spanning
//! tree — while every wall incident to a still-unvisited cell stays present.

use vstd::prelude::*;

use crate::count::{lemma_open_count_all_true, lemma_open_count_open_one, open_count};
use crate::direction::{
    can_step, lemma_step_opposite, opposite, spec_step, step, step_x, step_y, Direction,
};
use crate::maze::Maze;
use crate::rng::rand_below;
use crate::{filled_vec, in_grid, Coord, MAZE_SIZE};

verus! {

/// Walk steps granted to one random walk before the generator falls back to
/// a deterministic, tree-preserving step (see `generate_maze`). The walk on
/// the small grid reaches the visited region after a handful of steps in all
/// but a vanishing fraction of runs.
pub const WALK_FUEL: usize = 100000;

/// Flat index of cell `(x, y)` in a `MAZE_SIZE x MAZE_SIZE` grid (rows of\n/// `MAZE_SIZE == 5` entries).
pub open spec fn cell_idx(x: int, y: int) -> int {
    y * 5 + x
}

/// Flat index of the vertical wall below cell `(x, y)`, i.e. between
/// `(x, y)` and `(x, y + 1)`; rows `0 .. MAZE_SIZE - 1`, columns
/// `0 .. MAZE_SIZE`.
pub open spec fn vw_idx(x: int, y: int) -> int {
    y * 5 + x
}

/// Flat index of the horizontal wall right of cell `(x, y)`, i.e. between
/// `(x, y)` and `(x + 1, y)`; rows `0 .. MAZE_SIZE`, columns
/// `0 .. MAZE_SIZE - 1`.
pub open spec fn hw_idx(x: int, y: int) -> int {
    y * 4 + x
}

pub open spec fn is_vertical_dir(d: Direction) -> bool {
    d == Direction::Up || d == Direction::Down
}

/// The flat index, in its own grid, of the interior wall crossed when
/// leaving cell `c` in direction `d` (vertical grid for `Up`/`Down`,
/// horizontal grid for `Left`/`Right`).
pub open spec fn wall_flat_idx(c: Coord, d: Direction) -> int {
    match d {
        Direction::Up => vw_idx(c.x as int, c.y as int - 1),
        Direction::Down => vw_idx(c.x as int, c.y as int),
        Direction::Left => hw_idx(c.x as int - 1, c.y as int),
        Direction::Right => hw_idx(c.x as int, c.y as int),
    }
}

/// One interior wall is shared by exactly one unordered pair of adjacent
/// cells: equal flat indices in the same grid mean the same cell-direction
/// pair or the two sides of one wall.
pub proof fn lemma_wall_shared(c1: Coord, d1: Direction, c2: Coord, d2: Direction)
    requires
        in_grid(c1),
        in_grid(c2),
        can_step(d1, c1.x as int, c1.y as int),
        can_step(d2, c2.x as int, c2.y as int),
        is_vertical_dir(d1) == is_vertical_dir(d2),
        wall_flat_idx(c1, d1) == wall_flat_idx(c2, d2),
    ensures
        (c2 == c1 && d2 == d1) || (c2 == spec_step(c1, d1) && d2 == opposite(d1)),
{
}

/// `c` can reach `s` through open interior walls in at most `n` steps.
pub open spec fn joined(g: MazeGenerator, s: Coord, c: Coord, n: nat) -> bool
    decreases n,
{
    c == s || (n > 0 && exists|d: Direction|
        can_step(d, c.x as int, c.y as int) && !g.wall_toward(c.x as int, c.y as int, d)
            && joined(g, s, spec_step(c, d), (n - 1) as nat))
}

/// `c` and `s` are connected through open interior walls.
pub open spec fn connected(g: MazeGenerator, s: Coord, c: Coord) -> bool {
    exists|n: nat| joined(g, s, c, n)
}

/// Every cell of the grid is connected to `s`: together with the open wall
/// count this makes the open walls a spanning tree.
pub open spec fn spans(g: MazeGenerator, s: Coord) -> bool {
    forall|c: Coord| in_grid(c) ==> #[trigger] connected(g, s, c)
}

/// One descending step of a connectivity certificate: the wall from `c`
/// toward `d` is open, leads to a visited cell, and that cell's depth in
/// `f` is strictly smaller.
pub open spec fn cert_step(g: MazeGenerator, f: Map<Coord, nat>, c: Coord, d: Direction) -> bool {
    &&& can_step(d, c.x as int, c.y as int)
    &&& !g.wall_toward(c.x as int, c.y as int, d)
    &&& in_grid(spec_step(c, d))
    &&& g.visited(spec_step(c, d).x as int, spec_step(c, d).y as int)
    &&& f.dom().contains(spec_step(c, d))
    &&& f[spec_step(c, d)] < f[c]
}

/// `c`'s certificate entry: it carries a depth, and unless it is the seed
/// some open wall descends from it.
pub open spec fn cert_entry(g: MazeGenerator, s: Coord, f: Map<Coord, nat>, c: Coord) -> bool {
    f.dom().contains(c) && (c == s || exists|d: Direction| #[trigger] cert_step(g, f, c, d))
}

/// A connectivity certificate: every visited cell carries a depth that
/// strictly decreases along some open wall toward a visited neighbour,
/// bottoming out at the seed.
pub open spec fn cert_ok(g: MazeGenerator, s: Coord, f: Map<Coord, nat>) -> bool {
    forall|c: Coord|
        in_grid(c) && #[trigger] g.visited(c.x as int, c.y as int) ==> cert_entry(g, s, f, c)
}

/// Reachability is monotone in the step budget.
proof fn lemma_joined_mono(g: MazeGenerator, s: Coord, c: Coord, n1: nat, n2: nat)
    requires
        joined(g, s, c, n1),
        n1 <= n2,
    ensures
        joined(g, s, c, n2),
    decreases n1,
{
    if c != s {
        let d = choose|d: Direction|
            can_step(d, c.x as int, c.y as int) && !g.wall_toward(c.x as int, c.y as int, d)
                && joined(g, s, spec_step(c, d), (n1 - 1) as nat);
        lemma_joined_mono(g, s, spec_step(c, d), (n1 - 1) as nat, (n2 - 1) as nat);
    }
}

/// Following a certificate's strictly decreasing depths reaches the seed.
proof fn lemma_cert_joined(g: MazeGenerator, s: Coord, f: Map<Coord, nat>, c: Coord)
    requires
        cert_ok(g, s, f),
        in_grid(c),
        g.visited(c.x as int, c.y as int),
    ensures
        joined(g, s, c, f[c]),
    decreases f[c],
{
    if c != s {
        assert(cert_entry(g, s, f, c));
        let d = choose|d: Direction| #[trigger] cert_step(g, f, c, d);
        lemma_cert_joined(g, s, f, spec_step(c, d));
        lemma_joined_mono(g, s, spec_step(c, d), f[spec_step(c, d)], (f[c] - 1) as nat);
    }
}

/// Advancing one commit step keeps the connectivity certificate: the cell
/// just visited gets the next depth down the path, the previously pending
/// cell's wall now descends, and every other visited cell keeps its entry.
#[verifier::rlimit(100)]
proof fn lemma_cert_advance(
    g0: MazeGenerator,
    gh: MazeGenerator,
    g2: MazeGenerator,
    s: Coord,
    cert: Map<Coord, nat>,
    f0: Map<Coord, nat>,
    path: Seq<Coord>,
    dirs: Seq<Direction>,
    i: int,
    dd: nat,
)
    requires
        gh.wf(),
        g2.wf(),
        path_ok(path, dirs),
        0 <= i < dirs.len(),
        g2.spec_cells() == gh.spec_cells().update(
            cell_idx(path[i].x as int, path[i].y as int),
            true,
        ),
        is_vertical_dir(dirs[i]) ==> g2.spec_vwalls() == gh.spec_vwalls().update(
            wall_flat_idx(path[i], dirs[i]),
            false,
        ) && g2.spec_hwalls() == gh.spec_hwalls(),
        !is_vertical_dir(dirs[i]) ==> g2.spec_hwalls() == gh.spec_hwalls().update(
            wall_flat_idx(path[i], dirs[i]),
            false,
        ) && g2.spec_vwalls() == gh.spec_vwalls(),
        forall|j: int| 0 <= j < dirs.len() ==> !g0.visited((#[trigger] path[j]).x as int, path[j].y as int),
        forall|j: int|
            i <= j < dirs.len() ==> !gh.visited((#[trigger] path[j]).x as int, path[j].y as int),
        forall|x: int, y: int|
            0 <= x < MAZE_SIZE && 0 <= y < MAZE_SIZE && g0.visited(x, y) ==> #[trigger] gh.visited(
                x,
                y,
            ),
        g0.visited(path[dirs.len() as int].x as int, path[dirs.len() as int].y as int),
        cert.dom().contains(path[dirs.len() as int]),
        dd == cert[path[dirs.len() as int]],
        forall|c: Coord|
            in_grid(c) && #[trigger] g0.visited(c.x as int, c.y as int) ==> f0.dom().contains(c)
                && f0[c] == cert[c],
        forall|j: int|
            0 <= j < i ==> f0.dom().contains(#[trigger] path[j]) && f0[path[j]] == dd + dirs.len()
                - j,
        forall|c: Coord|
            in_grid(c) && gh.visited(c.x as int, c.y as int) && !(i >= 1 && i < dirs.len() && c
                == path[i - 1]) ==> #[trigger] cert_entry(gh, s, f0, c),
        i >= 1 && i < dirs.len() ==> !gh.wall_toward(
            path[i - 1].x as int,
            path[i - 1].y as int,
            dirs[i - 1],
        ),
    ensures
        ({
            let f = f0.insert(path[i], (dd + dirs.len() - i) as nat);
            &&& (forall|c: Coord|
                in_grid(c) && g0.visited(c.x as int, c.y as int) ==> #[trigger] f.dom().contains(
                    c,
                ) && f[c] == cert[c])
            &&& (forall|j: int|
                0 <= j < i + 1 ==> f.dom().contains(#[trigger] path[j]) && f[path[j]] == dd
                    + dirs.len() - j)
            &&& (forall|c: Coord|
                in_grid(c) && g2.visited(c.x as int, c.y as int) && !(i + 1 < dirs.len() && c
                    == path[i]) ==> #[trigger] cert_entry(g2, s, f, c))
            &&& !g2.wall_toward(path[i].x as int, path[i].y as int, dirs[i])
        }),
{
    let steps = dirs.len();
    let c = path[i];
    let d = dirs[i];
    let term = path[steps as int];
    let f = f0.insert(c, (dd + steps - i) as nat);
    assert forall|cc: Coord|
        in_grid(cc) && g0.visited(cc.x as int, cc.y as int) implies #[trigger] f.dom().contains(
        cc,
    ) && f[cc] == cert[cc] by {
        assert(cc != c);
        assert(f0.dom().contains(cc) && f0[cc] == cert[cc]);
    }
    assert forall|j: int|
        0 <= j < i + 1 implies f.dom().contains(#[trigger] path[j]) && f[path[j]] == dd + steps
        - j by {
        if j < i {
            assert(path[j] != c);
        }
    }
    assert forall|cc: Coord|
        in_grid(cc) && g2.visited(cc.x as int, cc.y as int) && !(i + 1 < steps && cc
            == path[i]) implies #[trigger] cert_entry(g2, s, f, cc) by {
        lemma_cert_entry_step(g0, gh, g2, s, cert, f0, path, dirs, i, dd, cc);
    }
    assert(!g2.wall_toward(c.x as int, c.y as int, d));
}

/// One cell's certificate entry after a commit step: the freshly visited
/// cell descends through its just-opened wall, the previously pending cell
/// descends toward it, and every other visited cell keeps its old entry.
#[verifier::rlimit(100)]
proof fn lemma_cert_entry_step(
    g0: MazeGenerator,
    gh: MazeGenerator,
    g2: MazeGenerator,
    s: Coord,
    cert: Map<Coord, nat>,
    f0: Map<Coord, nat>,
    path: Seq<Coord>,
    dirs: Seq<Direction>,
    i: int,
    dd: nat,
    cc: Coord,
)
    requires
        gh.wf(),
        g2.wf(),
        path_ok(path, dirs),
        0 <= i < dirs.len(),
        g2.spec_cells() == gh.spec_cells().update(
            cell_idx(path[i].x as int, path[i].y as int),
            true,
        ),
        is_vertical_dir(dirs[i]) ==> g2.spec_vwalls() == gh.spec_vwalls().update(
            wall_flat_idx(path[i], dirs[i]),
            false,
        ) && g2.spec_hwalls() == gh.spec_hwalls(),
        !is_vertical_dir(dirs[i]) ==> g2.spec_hwalls() == gh.spec_hwalls().update(
            wall_flat_idx(path[i], dirs[i]),
            false,
        ) && g2.spec_vwalls() == gh.spec_vwalls(),
        forall|j: int|
            0 <= j < dirs.len() ==> !g0.visited((#[trigger] path[j]).x as int, path[j].y as int),
        forall|j: int|
            i <= j < dirs.len() ==> !gh.visited((#[trigger] path[j]).x as int, path[j].y as int),
        forall|x: int, y: int|
            0 <= x < MAZE_SIZE && 0 <= y < MAZE_SIZE && g0.visited(x, y) ==> #[trigger] gh.visited(
                x,
                y,
            ),
        g0.visited(path[dirs.len() as int].x as int, path[dirs.len() as int].y as int),
        cert.dom().contains(path[dirs.len() as int]),
        dd == cert[path[dirs.len() as int]],
        forall|c: Coord|
            in_grid(c) && #[trigger] g0.visited(c.x as int, c.y as int) ==> f0.dom().contains(c)
                && f0[c] == cert[c],
        forall|j: int|
            0 <= j < i ==> f0.dom().contains(#[trigger] path[j]) && f0[path[j]] == dd + dirs.len()
                - j,
        forall|c: Coord|
            in_grid(c) && gh.visited(c.x as int, c.y as int) && !(i >= 1 && i < dirs.len() && c
                == path[i - 1]) ==> #[trigger] cert_entry(gh, s, f0, c),
        i >= 1 && i < dirs.len() ==> !gh.wall_toward(
            path[i - 1].x as int,
            path[i - 1].y as int,
            dirs[i - 1],
        ),
        in_grid(cc),
        g2.visited(cc.x as int, cc.y as int),
        !(i + 1 < dirs.len() && cc == path[i]),
    ensures
        cert_entry(g2, s, f0.insert(path[i], (dd + dirs.len() - i) as nat), cc),
{
    let steps = dirs.len();
    let c = path[i];
    if cc == c {
        lemma_cert_entry_fresh(g0, gh, g2, s, cert, f0, path, dirs, i, dd);
    } else if i >= 1 && cc == path[i - 1] {
        lemma_cert_entry_pending(gh, g2, f0, path, dirs, i, dd, cc);
        assert(cert_step(
            g2,
            f0.insert(path[i], (dd + dirs.len() - i) as nat),
            cc,
            dirs[i - 1],
        ));
    } else {
        assert(cc != c);
        lemma_cert_entry_kept(g0, gh, g2, s, f0, path, dirs, i, dd, cc);
    }
}

/// The freshly visited final cell of a path descends through its
/// just-opened wall to the visited terminal.
proof fn lemma_cert_entry_fresh(
    g0: MazeGenerator,
    gh: MazeGenerator,
    g2: MazeGenerator,
    s: Coord,
    cert: Map<Coord, nat>,
    f0: Map<Coord, nat>,
    path: Seq<Coord>,
    dirs: Seq<Direction>,
    i: int,
    dd: nat,
)
    requires
        gh.wf(),
        g2.wf(),
        path_ok(path, dirs),
        0 <= i < dirs.len(),
        i + 1 == dirs.len(),
        g2.spec_cells() == gh.spec_cells().update(
            cell_idx(path[i].x as int, path[i].y as int),
            true,
        ),
        is_vertical_dir(dirs[i]) ==> g2.spec_vwalls() == gh.spec_vwalls().update(
            wall_flat_idx(path[i], dirs[i]),
            false,
        ) && g2.spec_hwalls() == gh.spec_hwalls(),
        !is_vertical_dir(dirs[i]) ==> g2.spec_hwalls() == gh.spec_hwalls().update(
            wall_flat_idx(path[i], dirs[i]),
            false,
        ) && g2.spec_vwalls() == gh.spec_vwalls(),
        forall|j: int|
            0 <= j < dirs.len() ==> !g0.visited((#[trigger] path[j]).x as int, path[j].y as int),
        forall|x: int, y: int|
            0 <= x < MAZE_SIZE && 0 <= y < MAZE_SIZE && g0.visited(x, y) ==> #[trigger] gh.visited(
                x,
                y,
            ),
        g0.visited(path[dirs.len() as int].x as int, path[dirs.len() as int].y as int),
        cert.dom().contains(path[dirs.len() as int]),
        dd == cert[path[dirs.len() as int]],
        forall|c: Coord|
            in_grid(c) && #[trigger] g0.visited(c.x as int, c.y as int) ==> f0.dom().contains(c)
                && f0[c] == cert[c],
    ensures
        cert_entry(g2, s, f0.insert(path[i], (dd + dirs.len() - i) as nat), path[i]),
{
    let steps = dirs.len();
    let c = path[i];
    let d = dirs[i];
    let term = path[steps as int];
    let f = f0.insert(c, (dd + steps - i) as nat);
    assert(!g2.wall_toward(c.x as int, c.y as int, d));
    assert(spec_step(c, d) == term);
    assert(gh.visited(term.x as int, term.y as int));
    assert(g2.visited(term.x as int, term.y as int));
    assert(f0.dom().contains(term));
    assert(term != c);
    assert(f.dom().contains(term));
    assert(f[term] == cert[term]);
    assert(cert_step(g2, f, c, d));
}

/// The previously pending cell descends through the wall opened one step
/// earlier, toward the cell just visited.
proof fn lemma_cert_entry_pending(
    gh: MazeGenerator,
    g2: MazeGenerator,
    f0: Map<Coord, nat>,
    path: Seq<Coord>,
    dirs: Seq<Direction>,
    i: int,
    dd: nat,
    cc: Coord,
)
    requires
        gh.wf(),
        g2.wf(),
        path_ok(path, dirs),
        1 <= i < dirs.len(),
        cc == path[i - 1],
        g2.spec_cells() == gh.spec_cells().update(
            cell_idx(path[i].x as int, path[i].y as int),
            true,
        ),
        is_vertical_dir(dirs[i]) ==> g2.spec_vwalls() == gh.spec_vwalls().update(
            wall_flat_idx(path[i], dirs[i]),
            false,
        ) && g2.spec_hwalls() == gh.spec_hwalls(),
        !is_vertical_dir(dirs[i]) ==> g2.spec_hwalls() == gh.spec_hwalls().update(
            wall_flat_idx(path[i], dirs[i]),
            false,
        ) && g2.spec_vwalls() == gh.spec_vwalls(),
        forall|j: int|
            0 <= j < i ==> f0.dom().contains(#[trigger] path[j]) && f0[path[j]] == dd + dirs.len()
                - j,
        !gh.wall_toward(path[i - 1].x as int, path[i - 1].y as int, dirs[i - 1]),
    ensures
        f0.insert(path[i], (dd + dirs.len() - i) as nat).dom().contains(cc),
        cert_step(g2, f0.insert(path[i], (dd + dirs.len() - i) as nat), cc, dirs[i - 1]),
{
    let steps = dirs.len();
    let c = path[i];
    let dp = dirs[i - 1];
    let f = f0.insert(c, (dd + steps - i) as nat);
    assert(!gh.wall_toward(cc.x as int, cc.y as int, dp));
    assert(!g2.wall_toward(cc.x as int, cc.y as int, dp));
    assert(spec_step(cc, dp) == c);
    assert(g2.visited(c.x as int, c.y as int));
    assert(f[c] == dd + steps - i);
    assert(f0.dom().contains(cc));
    assert(cc != c);
    assert(f[cc] == dd + steps - (i - 1));
}

/// Any other visited cell keeps its certificate entry: its depth is
/// untouched and its witness wall stays open.
proof fn lemma_cert_entry_kept(
    g0: MazeGenerator,
    gh: MazeGenerator,
    g2: MazeGenerator,
    s: Coord,
    f0: Map<Coord, nat>,
    path: Seq<Coord>,
    dirs: Seq<Direction>,
    i: int,
    dd: nat,
    cc: Coord,
)
    requires
        gh.wf(),
        g2.wf(),
        path_ok(path, dirs),
        0 <= i < dirs.len(),
        g2.spec_cells() == gh.spec_cells().update(
            cell_idx(path[i].x as int, path[i].y as int),
            true,
        ),
        is_vertical_dir(dirs[i]) ==> g2.spec_vwalls() == gh.spec_vwalls().update(
            wall_flat_idx(path[i], dirs[i]),
            false,
        ) && g2.spec_hwalls() == gh.spec_hwalls(),
        !is_vertical_dir(dirs[i]) ==> g2.spec_hwalls() == gh.spec_hwalls().update(
            wall_flat_idx(path[i], dirs[i]),
            false,
        ) && g2.spec_vwalls() == gh.spec_vwalls(),
        forall|j: int|
            i <= j < dirs.len() ==> !gh.visited((#[trigger] path[j]).x as int, path[j].y as int),
        forall|c: Coord|
            in_grid(c) && gh.visited(c.x as int, c.y as int) && !(i >= 1 && i < dirs.len() && c
                == path[i - 1]) ==> #[trigger] cert_entry(gh, s, f0, c),
        in_grid(cc),
        g2.visited(cc.x as int, cc.y as int),
        cc != path[i],
        !(i >= 1 && cc == path[i - 1]),
    ensures
        cert_entry(g2, s, f0.insert(path[i], (dd + dirs.len() - i) as nat), cc),
{
    let steps = dirs.len();
    let c = path[i];
    let f = f0.insert(c, (dd + steps - i) as nat);
    assert(cell_idx(cc.x as int, cc.y as int) != cell_idx(c.x as int, c.y as int));
    assert(gh.visited(cc.x as int, cc.y as int));
    assert(cert_entry(gh, s, f0, cc));
    assert(f[cc] == f0[cc]);
    if cc != s {
        let dw = choose|d2: Direction| #[trigger] cert_step(gh, f0, cc, d2);
        assert(!g2.wall_toward(cc.x as int, cc.y as int, dw));
        let nx = spec_step(cc, dw);
        assert(nx != c);
        assert(cell_idx(nx.x as int, nx.y as int) != cell_idx(c.x as int, c.y as int));
        assert(g2.visited(nx.x as int, nx.y as int));
        assert(f[nx] == f0[nx]);
        assert(cert_step(g2, f, cc, dw));
    }
}

/// One commit step keeps the frontier shape: visited cells stay visited,
/// the remaining path cells stay unvisited, every other unvisited cell
/// keeps all its walls, and the successor cell keeps all walls but the
/// one just opened.
#[verifier::rlimit(100)]
proof fn lemma_commit_advance(
    g0: MazeGenerator,
    gh: MazeGenerator,
    g2: MazeGenerator,
    path: Seq<Coord>,
    dirs: Seq<Direction>,
    i: int,
)
    requires
        gh.wf(),
        g2.wf(),
        path_ok(path, dirs),
        0 <= i < dirs.len(),
        g2.spec_cells() == gh.spec_cells().update(
            cell_idx(path[i].x as int, path[i].y as int),
            true,
        ),
        is_vertical_dir(dirs[i]) ==> g2.spec_vwalls() == gh.spec_vwalls().update(
            wall_flat_idx(path[i], dirs[i]),
            false,
        ) && g2.spec_hwalls() == gh.spec_hwalls(),
        !is_vertical_dir(dirs[i]) ==> g2.spec_hwalls() == gh.spec_hwalls().update(
            wall_flat_idx(path[i], dirs[i]),
            false,
        ) && g2.spec_vwalls() == gh.spec_vwalls(),
        forall|x: int, y: int|
            0 <= x < MAZE_SIZE && 0 <= y < MAZE_SIZE && g0.visited(x, y) ==> #[trigger] gh.visited(
                x,
                y,
            ),
        forall|j: int|
            i <= j < dirs.len() ==> !gh.visited((#[trigger] path[j]).x as int, path[j].y as int),
        gh.visited(path[dirs.len() as int].x as int, path[dirs.len() as int].y as int),
        forall|x: int, y: int|
            0 <= x < MAZE_SIZE && 0 <= y < MAZE_SIZE && !gh.visited(x, y) && !(i >= 1 && x
                == path[i].x && y == path[i].y) ==> #[trigger] gh.walls_full_at(x, y),
    ensures
        forall|x: int, y: int|
            0 <= x < MAZE_SIZE && 0 <= y < MAZE_SIZE && g0.visited(x, y) ==> #[trigger] g2.visited(
                x,
                y,
            ),
        forall|j: int|
            i + 1 <= j < dirs.len() ==> !g2.visited(
                (#[trigger] path[j]).x as int,
                path[j].y as int,
            ),
        g2.visited(path[dirs.len() as int].x as int, path[dirs.len() as int].y as int),
        forall|x: int, y: int|
            0 <= x < MAZE_SIZE && 0 <= y < MAZE_SIZE && !g2.visited(x, y) && !(x == path[i
                + 1].x && y == path[i + 1].y) ==> #[trigger] g2.walls_full_at(x, y),
        !g2.visited(path[i + 1].x as int, path[i + 1].y as int) ==> walls_full_except(
            g2,
            path[i + 1],
            opposite(dirs[i]),
        ),
{
    let steps = dirs.len();
    let c = path[i];
    let d = dirs[i];
    let cnew = path[i + 1];
    assert(cnew == spec_step(c, d));
    assert forall|x: int, y: int|
        0 <= x < MAZE_SIZE && 0 <= y < MAZE_SIZE && g0.visited(x, y) implies #[trigger] g2.visited(
        x,
        y,
    ) by {
        assert(gh.visited(x, y));
        if !(x == c.x as int && y == c.y as int) {
            assert(cell_idx(x, y) != cell_idx(c.x as int, c.y as int));
        }
    }
    assert forall|j: int|
        i + 1 <= j < steps implies !g2.visited(
        (#[trigger] path[j]).x as int,
        path[j].y as int,
    ) by {
        assert(path[j] != c);
        assert(cell_idx(path[j].x as int, path[j].y as int) != cell_idx(c.x as int, c.y as int));
    }
    assert(path[steps as int] != c);
    assert(cell_idx(path[steps as int].x as int, path[steps as int].y as int) != cell_idx(
        c.x as int,
        c.y as int,
    ));
    // every other unvisited cell keeps all its walls
    assert forall|x: int, y: int|
        0 <= x < MAZE_SIZE && 0 <= y < MAZE_SIZE && !g2.visited(x, y) && !(x == cnew.x as int && y
            == cnew.y as int) implies #[trigger] g2.walls_full_at(x, y) by {
        let cc = Coord { x: x as usize, y: y as usize };
        assert(!gh.visited(x, y));
        assert(gh.walls_full_at(x, y));
        assert forall|d2: Direction| can_step(d2, x, y) implies #[trigger] g2.wall_toward(
            x,
            y,
            d2,
        ) by {
            if is_vertical_dir(d2) == is_vertical_dir(d) && wall_flat_idx(cc, d2) == wall_flat_idx(
                c,
                d,
            ) {
                lemma_wall_shared(c, d, cc, d2);
                assert(false);
            }
            assert(gh.wall_toward(x, y, d2));
        }
    }
    // the successor cell keeps all walls but the opened one
    if !g2.visited(cnew.x as int, cnew.y as int) {
        assert(!gh.visited(cnew.x as int, cnew.y as int));
        assert(gh.walls_full_at(cnew.x as int, cnew.y as int));
        assert forall|d2: Direction|
            d2 != opposite(d) && can_step(
                d2,
                cnew.x as int,
                cnew.y as int,
            ) implies #[trigger] g2.wall_toward(cnew.x as int, cnew.y as int, d2) by {
            if is_vertical_dir(d2) == is_vertical_dir(d) && wall_flat_idx(cnew, d2)
                == wall_flat_idx(c, d) {
                lemma_wall_shared(c, d, cnew, d2);
                assert(false);
            }
            assert(gh.wall_toward(cnew.x as int, cnew.y as int, d2));
        }
    }
}

/// The transient state of one maze generation.
pub struct MazeGenerator {
    cells: Vec<bool>,
    vertical_walls: Vec<bool>,
    horizontal_walls: Vec<bool>,
    unvisited: Vec<Coord>,
}

impl MazeGenerator {
    /// The visited flags, one per cell, as a flat sequence.
    pub closed spec fn spec_cells(self) -> Seq<bool> {
        self.cells@
    }

    /// The interior vertical walls as a flat sequence.
    pub closed spec fn spec_vwalls(self) -> Seq<bool> {
        self.vertical_walls@
    }

    /// The interior horizontal walls as a flat sequence.
    pub closed spec fn spec_hwalls(self) -> Seq<bool> {
        self.horizontal_walls@
    }

    /// The unvisited cells in their current order.
    pub closed spec fn spec_unvisited(self) -> Seq<Coord> {
        self.unvisited@
    }

    pub open spec fn wf(self) -> bool {
        &&& self.spec_cells().len() == MAZE_SIZE * MAZE_SIZE
        &&& self.spec_vwalls().len() == (MAZE_SIZE - 1) * MAZE_SIZE
        &&& self.spec_hwalls().len() == MAZE_SIZE * (MAZE_SIZE - 1)
    }

    /// Cell `(x, y)` has been reached by the spanning-tree walk.
    pub open spec fn visited(self, x: int, y: int) -> bool {
        self.spec_cells()[cell_idx(x, y)]
    }

    /// The interior wall between `(x, y)` and `(x, y + 1)` is present.
    pub open spec fn vwall(self, x: int, y: int) -> bool {
        self.spec_vwalls()[vw_idx(x, y)]
    }

    /// The interior wall between `(x, y)` and `(x + 1, y)` is present.
    pub open spec fn hwall(self, x: int, y: int) -> bool {
        self.spec_hwalls()[hw_idx(x, y)]
    }

    /// The interior wall crossed when leaving `(x, y)` in direction `d`.
    pub open spec fn wall_toward(self, x: int, y: int, d: Direction) -> bool {
        match d {
            Direction::Up => self.vwall(x, y - 1),
            Direction::Down => self.vwall(x, y),
            Direction::Left => self.hwall(x - 1, y),
            Direction::Right => self.hwall(x, y),
        }
    }

    /// Every interior wall incident to cell `(x, y)` is present.
    pub open spec fn walls_full_at(self, x: int, y: int) -> bool {
        forall|d: Direction| can_step(d, x, y) ==> #[trigger] self.wall_toward(x, y, d)
    }

    /// Every interior wall incident to an unvisited cell is present: walls
    /// are only ever opened between cells committed to the spanning tree.
    pub open spec fn frontier_intact(self) -> bool {
        forall|x: int, y: int|
            0 <= x < MAZE_SIZE && 0 <= y < MAZE_SIZE && !self.visited(x, y)
                ==> #[trigger] self.walls_full_at(x, y)
    }

    /// `unvisited` holds each unvisited cell exactly once and nothing else.
    pub open spec fn unvisited_ok(self) -> bool {
        &&& (forall|i: int, j: int|
            0 <= i < j < self.spec_unvisited().len()
                ==> self.spec_unvisited()[i] != self.spec_unvisited()[j])
        &&& (forall|i: int|
            0 <= i < self.spec_unvisited().len() ==> in_grid(#[trigger] self.spec_unvisited()[i]))
        &&& (forall|c: Coord|
            in_grid(c) ==> (#[trigger] self.spec_unvisited().contains(c)
                <==> !self.visited(c.x as int, c.y as int)))
    }

    /// How many interior walls are open (removed).
    pub open spec fn open_edges(self) -> nat {
        open_count(self.spec_vwalls()) + open_count(self.spec_hwalls())
    }

    /// The generation invariant: once the tree is seeded, the number of open
    /// walls is exactly the number of visited cells minus one, so the open
    /// walls always form a spanning tree of the visited region.
    pub open spec fn inv(self) -> bool {
        &&& self.wf()
        &&& self.unvisited_ok()
        &&& self.frontier_intact()
        &&& self.open_edges() + self.spec_unvisited().len() + 1 == MAZE_SIZE * MAZE_SIZE
    }

    /// Whether the spanning-tree walk has reached `c`.
    pub fn is_visited(&self, c: Coord) -> (r: bool)
        requires
            self.wf(),
            in_grid(c),
        ensures
            r == self.visited(c.x as int, c.y as int),
    {
        self.cells[c.y * MAZE_SIZE + c.x]
    }

    /// How many cells the walk has not reached yet.
    pub fn unvisited_len(&self) -> (r: usize)
        ensures
            r == self.spec_unvisited().len(),
    {
        self.unvisited.len()
    }

    /// Mark `c` visited and drop it from the unvisited set (a no-op there if
    /// it was already visited).
    fn visit_cell(&mut self, c: Coord)
        requires
            old(self).wf(),
            old(self).unvisited_ok(),
            in_grid(c),
        ensures
            final(self).wf(),
            final(self).spec_cells() == old(self).spec_cells().update(
                cell_idx(c.x as int, c.y as int),
                true,
            ),
            final(self).spec_vwalls() == old(self).spec_vwalls(),
            final(self).spec_hwalls() == old(self).spec_hwalls(),
            forall|d: Coord|
                #[trigger] final(self).spec_unvisited().contains(d)
                    <==> (old(self).spec_unvisited().contains(d) && d != c),
            forall|i: int, j: int|
                0 <= i < j < final(self).spec_unvisited().len()
                    ==> final(self).spec_unvisited()[i] != final(self).spec_unvisited()[j],
            forall|i: int|
                0 <= i < final(self).spec_unvisited().len()
                    ==> in_grid(#[trigger] final(self).spec_unvisited()[i]),
            old(self).spec_unvisited().contains(c)
                ==> final(self).spec_unvisited().len() == old(self).spec_unvisited().len() - 1,
            !old(self).spec_unvisited().contains(c)
                ==> final(self).spec_unvisited() == old(self).spec_unvisited(),
            final(self).unvisited_ok(),
    {
        let idx = c.y * MAZE_SIZE + c.x;
        self.cells[idx] = true;
        let n = self.unvisited.len();
        let mut k: usize = 0;
        while k < n && !(self.unvisited[k] == c)
            invariant
                n == self.unvisited@.len(),
                k <= n,
                forall|j: int| 0 <= j < k ==> self.unvisited@[j] != c,
            decreases n - k,
        {
            k += 1;
        }
        if k < n {
            proof {
                assert(self.unvisited@ == old(self).spec_unvisited());
                assert(old(self).spec_unvisited().contains(c)) by {
                    assert(old(self).spec_unvisited()[k as int] == c);
                }
                lemma_distinct_remove(old(self).spec_unvisited(), k as int);
            }
            self.unvisited.remove(k);
            proof {
                assert(self.spec_unvisited() == old(self).spec_unvisited().remove(k as int));
            }
        } else {
            proof {
                if old(self).spec_unvisited().contains(c) {
                    let i = choose|i: int|
                        0 <= i < old(self).spec_unvisited().len() && old(self).spec_unvisited()[i]
                            == c;
                    assert(self.unvisited@[i] == c);
                    assert(false);
                }
                assert(self.spec_unvisited() == old(self).spec_unvisited());
            }
        }
        proof {
            assert forall|cc: Coord| in_grid(cc) implies (#[trigger] self.spec_unvisited().contains(
                cc,
            ) <==> !self.visited(cc.x as int, cc.y as int)) by {
                assert(self.spec_unvisited().contains(cc) <==> (old(
                    self,
                ).spec_unvisited().contains(cc) && cc != c));
                if cc == c {
                    assert(self.visited(cc.x as int, cc.y as int));
                } else {
                    assert(cell_idx(cc.x as int, cc.y as int) != cell_idx(c.x as int, c.y as int));
                    assert(self.visited(cc.x as int, cc.y as int) == old(self).visited(
                        cc.x as int,
                        cc.y as int,
                    ));
                    assert(old(self).spec_unvisited().contains(cc) <==> !old(self).visited(
                        cc.x as int,
                        cc.y as int,
                    ));
                }
            }
        }
    }

    /// Open the interior wall crossed when leaving `coords` in `direction`.
    fn remove_wall(&mut self, coords: Coord, direction: Direction)
        requires
            old(self).wf(),
            in_grid(coords),
            can_step(direction, coords.x as int, coords.y as int),
        ensures
            final(self).wf(),
            final(self).spec_cells() == old(self).spec_cells(),
            final(self).spec_unvisited() == old(self).spec_unvisited(),
            is_vertical_dir(direction)
                ==> final(self).spec_vwalls()
                    == old(self).spec_vwalls().update(wall_flat_idx(coords, direction), false)
                && final(self).spec_hwalls() == old(self).spec_hwalls(),
            !is_vertical_dir(direction)
                ==> final(self).spec_hwalls()
                    == old(self).spec_hwalls().update(wall_flat_idx(coords, direction), false)
                && final(self).spec_vwalls() == old(self).spec_vwalls(),
            old(self).unvisited_ok() ==> final(self).unvisited_ok(),
    {
        match direction {
            Direction::Up => {
                let idx = (coords.y - 1) * MAZE_SIZE + coords.x;
                self.vertical_walls[idx] = false;
            },
            Direction::Down => {
                let idx = coords.y * MAZE_SIZE + coords.x;
                self.vertical_walls[idx] = false;
            },
            Direction::Left => {
                proof {
                    assert(coords.y * ((MAZE_SIZE - 1) as int) + (coords.x - 1) < 20);
                }
                let idx = coords.y * (MAZE_SIZE - 1) + (coords.x - 1);
                self.horizontal_walls[idx] = false;
            },
            Direction::Right => {
                proof {
                    assert(coords.y * ((MAZE_SIZE - 1) as int) + coords.x < 20);
                }
                let idx = coords.y * (MAZE_SIZE - 1) + coords.x;
                self.horizontal_walls[idx] = false;
            },
        }
        proof {
            if old(self).unvisited_ok() {
                assert forall|cc: Coord| in_grid(cc) implies (
                #[trigger] self.spec_unvisited().contains(cc) <==> !self.visited(
                    cc.x as int,
                    cc.y as int,
                )) by {
                    assert(old(self).spec_unvisited().contains(cc) <==> !old(self).visited(
                        cc.x as int,
                        cc.y as int,
                    ));
                }
            }
        }
    }
}

/// `c` is an unvisited cell with a visited neighbour one step in `d` — the
/// place where the spanning tree can always grow by one leaf.
pub open spec fn is_boundary(g: MazeGenerator, c: Coord, d: Direction) -> bool {
    &&& in_grid(c)
    &&& can_step(d, c.x as int, c.y as int)
    &&& !g.visited(c.x as int, c.y as int)
    &&& g.visited(step_x(d, c.x as int), step_y(d, c.y as int))
}

pub open spec fn dist1(a: int, b: int) -> int {
    if a <= b {
        b - a
    } else {
        a - b
    }
}

/// A sound walk state: one more cell than directions taken, every cell in
/// the grid and distinct, consecutive cells adjacent along the recorded
/// directions.
pub open spec fn path_ok(path: Seq<Coord>, dirs: Seq<Direction>) -> bool {
    &&& dirs.len() + 1 == path.len()
    &&& (forall|i: int| 0 <= i < path.len() ==> in_grid(#[trigger] path[i]))
    &&& (forall|i: int, j: int| 0 <= i < j < path.len() ==> path[i] != path[j])
    &&& (forall|i: int|
        0 <= i < dirs.len() ==> can_step(#[trigger] dirs[i], path[i].x as int, path[i].y as int)
            && path[i + 1] == spec_step(path[i], dirs[i]))
}

/// All walls of `c` but possibly the one toward `e` are present.
pub open spec fn walls_full_except(g: MazeGenerator, c: Coord, e: Direction) -> bool {
    forall|d: Direction|
        d != e && can_step(d, c.x as int, c.y as int) ==> #[trigger] g.wall_toward(
            c.x as int,
            c.y as int,
            d,
        )
}

/// Between an unvisited and a visited cell there is always a boundary pair:
/// walk the L-shaped grid path between them and take the first crossing.
proof fn lemma_boundary_exists(g: MazeGenerator, ux: int, uy: int, vx: int, vy: int)
    requires
        g.wf(),
        0 <= ux < MAZE_SIZE,
        0 <= uy < MAZE_SIZE,
        0 <= vx < MAZE_SIZE,
        0 <= vy < MAZE_SIZE,
        !g.visited(ux, uy),
        g.visited(vx, vy),
    ensures
        exists|c: Coord, d: Direction| is_boundary(g, c, d),
    decreases dist1(ux, vx) + dist1(uy, vy),
{
    let u = Coord { x: ux as usize, y: uy as usize };
    if ux < vx {
        if g.visited(ux + 1, uy) {
            assert(is_boundary(g, u, Direction::Right));
        } else {
            lemma_boundary_exists(g, ux + 1, uy, vx, vy);
        }
    } else if ux > vx {
        if g.visited(ux - 1, uy) {
            assert(is_boundary(g, u, Direction::Left));
        } else {
            lemma_boundary_exists(g, ux - 1, uy, vx, vy);
        }
    } else if uy < vy {
        if g.visited(ux, uy + 1) {
            assert(is_boundary(g, u, Direction::Down));
        } else {
            lemma_boundary_exists(g, ux, uy + 1, vx, vy);
        }
    } else {
        assert(uy != vy);
        if g.visited(ux, uy - 1) {
            assert(is_boundary(g, u, Direction::Up));
        } else {
            lemma_boundary_exists(g, ux, uy - 1, vx, vy);
        }
    }
}

impl MazeGenerator {
    /// Build a fresh generator and run the spanning-tree walk: afterwards
    /// every cell is visited and exactly `MAZE_SIZE * MAZE_SIZE - 1`
    /// interior walls are open — the edge count of a spanning tree.
    pub fn new(rng: &mut rand::rngs::ThreadRng) -> (m: MazeGenerator)
        ensures
            m.wf(),
            m.spec_unvisited().len() == 0,
            forall|x: int, y: int|
                0 <= x < MAZE_SIZE && 0 <= y < MAZE_SIZE ==> #[trigger] m.visited(x, y),
            m.open_edges() == MAZE_SIZE * MAZE_SIZE - 1,
            exists|s: Coord| in_grid(s) && #[trigger] spans(m, s),
    {
        proof {
            assert(MAZE_SIZE * MAZE_SIZE == 25);
            assert((MAZE_SIZE - 1) * MAZE_SIZE == 20);
            assert(MAZE_SIZE * (MAZE_SIZE - 1) == 20);
        }
        let n_cells = MAZE_SIZE * MAZE_SIZE;
        let n_walls = (MAZE_SIZE - 1) * MAZE_SIZE;
        let mut maze = MazeGenerator {
            cells: filled_vec(n_cells, false),
            vertical_walls: filled_vec(n_walls, true),
            horizontal_walls: filled_vec(n_walls, true),
            unvisited: gen_hashset(MAZE_SIZE),
        };
        proof {
            lemma_open_count_all_true(maze.spec_vwalls());
            lemma_open_count_all_true(maze.spec_hwalls());
            assert forall|x: int, y: int|
                0 <= x < MAZE_SIZE && 0 <= y < MAZE_SIZE implies !maze.visited(x, y) by {
                assert(maze.spec_cells()[cell_idx(x, y)] == false);
            }
            assert forall|i: int|
                0 <= i < maze.spec_unvisited().len() implies in_grid(
                #[trigger] maze.spec_unvisited()[i],
            ) by {}
            assert forall|c: Coord| in_grid(c) implies (#[trigger] maze.spec_unvisited().contains(
                c,
            ) <==> !maze.visited(c.x as int, c.y as int)) by {
                assert(maze.spec_unvisited().contains(c) <==> (c.x < MAZE_SIZE && c.y
                    < MAZE_SIZE));
                assert(maze.spec_cells()[cell_idx(c.x as int, c.y as int)] == false);
            }
            assert forall|x: int, y: int|
                0 <= x < MAZE_SIZE && 0 <= y < MAZE_SIZE && !maze.visited(
                    x,
                    y,
                ) implies #[trigger] maze.walls_full_at(x, y) by {
                assert forall|d: Direction| can_step(d, x, y) implies #[trigger] maze.wall_toward(
                    x,
                    y,
                    d,
                ) by {
                    match d {
                        Direction::Up => assert(maze.vwall(x, y - 1)),
                        Direction::Down => assert(maze.vwall(x, y)),
                        Direction::Left => assert(maze.hwall(x - 1, y)),
                        Direction::Right => assert(maze.hwall(x, y)),
                    }
                }
            }
        }
        maze.generate_maze(rng);
        maze
    }

    /// Commit a loop-free walk path that ends at a visited cell: visit each
    /// cell of it in order and open the wall toward its successor. Each step
    /// adds one cell and one open wall to the spanning tree.
    #[verifier::rlimit(100)]
    fn commit_path(
        &mut self,
        path: &Vec<Coord>,
        dir_path: &Vec<Direction>,
        s: Ghost<Coord>,
        cert: Ghost<Map<Coord, nat>>,
    ) -> (r: Ghost<Map<Coord, nat>>)
        requires
            old(self).inv(),
            cert_ok(*old(self), s@, cert@),
            path_ok(path@, dir_path@),
            dir_path@.len() >= 1,
            forall|j: int|
                0 <= j < dir_path@.len() ==> !old(self).visited(
                    (#[trigger] path@[j]).x as int,
                    path@[j].y as int,
                ),
            old(self).visited(
                path@[dir_path@.len() as int].x as int,
                path@[dir_path@.len() as int].y as int,
            ),
        ensures
            final(self).inv(),
            final(self).spec_unvisited().len() == old(self).spec_unvisited().len()
                - dir_path@.len(),
            forall|x: int, y: int|
                0 <= x < MAZE_SIZE && 0 <= y < MAZE_SIZE && old(self).visited(x, y)
                    ==> #[trigger] final(self).visited(x, y),
            cert_ok(*final(self), s@, r@),
    {
        // commit the loop-free path: visit each cell of it and open the
        // wall toward its successor
        let steps = dir_path.len();
        let ghost len0 = self.spec_unvisited().len();
        let ghost g0 = *self;
        let ghost term = path@[steps as int];
        let ghost dd = cert@[term];
        let ghost mut f = cert@;
        proof {
            assert(path_ok(path@, dir_path@));
            assert(steps >= 1);
            assert(self.visited(
                path@[steps as int].x as int,
                path@[steps as int].y as int,
            ));
            assert(forall|j: int|
                0 <= j < steps ==> !self.visited(
                    (#[trigger] path@[j]).x as int,
                    path@[j].y as int,
                ));
        }
        let mut i: usize = 0;
        while i < steps
            invariant
                i <= steps,
                self.wf(),
                self.unvisited_ok(),
                self.open_edges() == g0.open_edges() + i,
                self.spec_unvisited().len() == len0 - i,
                forall|x: int, y: int|
                    0 <= x < MAZE_SIZE && 0 <= y < MAZE_SIZE && g0.visited(x, y)
                        ==> #[trigger] self.visited(x, y),
                forall|j: int|
                    i <= j < steps ==> !self.visited(
                        (#[trigger] path@[j]).x as int,
                        path@[j].y as int,
                    ),
                self.visited(path@[steps as int].x as int, path@[steps as int].y as int),
                forall|x: int, y: int|
                    0 <= x < MAZE_SIZE && 0 <= y < MAZE_SIZE && !self.visited(x, y) && !(i >= 1
                        && x == path@[i as int].x && y == path@[i as int].y)
                        ==> #[trigger] self.walls_full_at(x, y),
                i >= 1 && !self.visited(path@[i as int].x as int, path@[i as int].y as int)
                    ==> walls_full_except(*self, path@[i as int], opposite(dir_path@[i - 1])),
                forall|c: Coord|
                    in_grid(c) && g0.visited(c.x as int, c.y as int) ==> #[trigger] f.dom().contains(c)
                        && f[c] == cert@[c],
                forall|j: int|
                    0 <= j < i ==> f.dom().contains(#[trigger] path@[j]) && f[path@[j]] == dd
                        + steps - j,
                forall|c: Coord|
                    in_grid(c) && self.visited(c.x as int, c.y as int) && !(i >= 1 && i < steps
                        && c == path@[i - 1]) ==> #[trigger] cert_entry(*self, s@, f, c),
                i >= 1 && i < steps ==> !self.wall_toward(
                    path@[i - 1].x as int,
                    path@[i - 1].y as int,
                    dir_path@[i - 1],
                ),
            decreases steps - i,
        {
            let ghost gh = *self;
            let ghost f0 = f;
            let c = path[i];
            let d = dir_path[i];
            proof {
                // the wall to be opened is still present
                if i >= 1 {
                    if d == opposite(dir_path@[i - 1]) {
                        lemma_step_opposite(path@[i - 1], dir_path@[i - 1]);
                        assert(path@[i + 1] == path@[i - 1]);
                        assert(false);
                    }
                    assert(gh.wall_toward(c.x as int, c.y as int, d));
                } else {
                    assert(gh.walls_full_at(c.x as int, c.y as int));
                    assert(gh.wall_toward(c.x as int, c.y as int, d));
                }
            }
            self.visit_cell(c);
            let ghost gv = *self;
            self.remove_wall(c, d);
            proof {
                if is_vertical_dir(d) {
                    lemma_open_count_open_one(gv.spec_vwalls(), wall_flat_idx(c, d));
                } else {
                    lemma_open_count_open_one(gv.spec_hwalls(), wall_flat_idx(c, d));
                }
                lemma_commit_advance(g0, gh, *self, path@, dir_path@, i as int);
            }
            proof {
                lemma_cert_advance(g0, gh, *self, s@, cert@, f0, path@, dir_path@, i as int, dd);
                f = f0.insert(c, (dd + steps - i) as nat);
            }
            i += 1;
        }
        // the last cell of the path is the visited cell the walk
        // reached; revisiting it leaves the state unchanged
        let ghost ge = *self;
        let last = path[steps];
        proof {
            assert(!ge.spec_unvisited().contains(last));
        }
        self.visit_cell(last);
        proof {
            assert forall|x: int, y: int|
                0 <= x < MAZE_SIZE && 0 <= y < MAZE_SIZE && !self.visited(
                    x,
                    y,
                ) implies #[trigger] self.walls_full_at(x, y) by {
                assert(!(x == last.x as int && y == last.y as int));
                assert(!ge.visited(x, y));
                assert(ge.walls_full_at(x, y));
                assert forall|d: Direction| can_step(d, x, y) implies #[trigger] self.wall_toward(
                    x,
                    y,
                    d,
                ) by {
                    assert(ge.wall_toward(x, y, d));
                }
            }
            assert(self.open_edges() == ge.open_edges());
            assert(self.spec_unvisited() == ge.spec_unvisited());
            assert forall|x: int, y: int|
                0 <= x < MAZE_SIZE && 0 <= y < MAZE_SIZE && g0.visited(
                    x,
                    y,
                ) implies #[trigger] self.visited(x, y) by {
                assert(ge.visited(x, y));
                if !(x == last.x as int && y == last.y as int) {
                    assert(cell_idx(x, y) != cell_idx(last.x as int, last.y as int));
                }
            }
            assert forall|cc: Coord|
                in_grid(cc) && #[trigger] self.visited(cc.x as int, cc.y as int) implies cert_entry(
                *self,
                s@,
                f,
                cc,
            ) by {
                if !(cc.x == last.x && cc.y == last.y) {
                    assert(cell_idx(cc.x as int, cc.y as int) != cell_idx(
                        last.x as int,
                        last.y as int,
                    ));
                }
                assert(ge.visited(cc.x as int, cc.y as int));
                assert(cert_entry(ge, s@, f, cc));
                if cc != s@ {
                    let dw = choose|d2: Direction| #[trigger] cert_step(ge, f, cc, d2);
                    let nx = spec_step(cc, dw);
                    assert(!self.wall_toward(cc.x as int, cc.y as int, dw));
                    assert(self.visited(nx.x as int, nx.y as int));
                    assert(cert_step(*self, f, cc, dw));
                }
            }
        }
        Ghost(f)
    }

    /// Wilson's algorithm: seed one random cell, then repeatedly run a
    /// loop-erased random walk from a random unvisited cell to the visited
    /// region and commit the walked path to the spanning tree. A walk that
    /// exhausts its fuel is abandoned and replaced by one deterministic
    /// leaf step at the visited boundary, which preserves the tree shape.
    #[verifier::rlimit(100)]
    fn generate_maze(&mut self, rng: &mut rand::rngs::ThreadRng)
        requires
            old(self).wf(),
            old(self).unvisited_ok(),
            old(self).frontier_intact(),
            old(self).open_edges() == 0,
            old(self).spec_unvisited().len() == MAZE_SIZE * MAZE_SIZE,
            forall|x: int, y: int|
                0 <= x < MAZE_SIZE && 0 <= y < MAZE_SIZE ==> !old(self).visited(x, y),
        ensures
            final(self).wf(),
            final(self).spec_unvisited().len() == 0,
            forall|x: int, y: int|
                0 <= x < MAZE_SIZE && 0 <= y < MAZE_SIZE ==> #[trigger] final(self).visited(x, y),
            final(self).open_edges() == MAZE_SIZE * MAZE_SIZE - 1,
            exists|s: Coord| in_grid(s) && #[trigger] spans(*final(self), s),
    {
        // visit first cell: the root of the spanning tree
        let seed = Coord { x: rand_below(rng, MAZE_SIZE), y: rand_below(rng, MAZE_SIZE) };
        let ghost mut f: Map<Coord, nat> = Map::<Coord, nat>::empty().insert(seed, 0nat);
        proof {
            assert(old(self).spec_unvisited().contains(seed));
        }
        self.visit_cell(seed);
        proof {
            assert forall|c: Coord|
                in_grid(c) && #[trigger] self.visited(c.x as int, c.y as int) implies cert_entry(
                *self,
                seed,
                f,
                c,
            ) by {
                if c != seed {
                    assert(cell_idx(c.x as int, c.y as int) != cell_idx(
                        seed.x as int,
                        seed.y as int,
                    ));
                    assert(!old(self).visited(c.x as int, c.y as int));
                    assert(false);
                }
                assert(f.dom().contains(seed));
            }
        }
        proof {
            assert forall|x: int, y: int|
                0 <= x < MAZE_SIZE && 0 <= y < MAZE_SIZE && !self.visited(
                    x,
                    y,
                ) implies #[trigger] self.walls_full_at(x, y) by {
                assert(old(self).walls_full_at(x, y));
                assert forall|d: Direction| can_step(d, x, y) implies #[trigger] self.wall_toward(
                    x,
                    y,
                    d,
                ) by {
                    assert(old(self).wall_toward(x, y, d));
                }
            }
        }
        while self.unvisited.len() > 0
            invariant
                self.inv(),
                self.visited(seed.x as int, seed.y as int),
                in_grid(seed),
                cert_ok(*self, seed, f),
            decreases self.spec_unvisited().len(),
        {
            let start_i = rand_below(rng, self.unvisited.len());
            let start = self.unvisited[start_i];
            proof {
                assert(self.spec_unvisited().contains(start));
            }
            let mut path: Vec<Coord> = Vec::new();
            path.push(start);
            let mut dir_path: Vec<Direction> = Vec::new();
            let mut direction = Direction::rnd_possible_next(None, rng, start);
            let mut current = start;
            let mut fuel: usize = WALK_FUEL;
            while fuel > 0 && !self.is_visited(current)
                invariant
                    path_ok(path@, dir_path@),
                    path@.len() >= 1,
                    path@[0] == start,
                    current == path@[path@.len() - 1],
                    forall|j: int|
                        0 <= j < path@.len() - 1 ==> !self.visited(
                            (#[trigger] path@[j]).x as int,
                            path@[j].y as int,
                        ),
                decreases fuel,
            {
                fuel -= 1;
                direction = Direction::rnd_possible_next(Some(direction), rng, current);
                let next = step(current, direction);
                // loop erasure: walking onto an earlier cell of the path
                // truncates the path back to that cell
                let plen = path.len();
                let mut k: usize = 0;
                while k < plen && !(path[k] == next)
                    invariant
                        k <= plen,
                        forall|j: int| 0 <= j < k ==> path@[j] != next,
                    decreases plen - k,
                {
                    k += 1;
                }
                if k < plen {
                    path.truncate(k + 1);
                    dir_path.truncate(k);
                } else {
                    path.push(next);
                    dir_path.push(direction);
                }
                current = next;
            }
            if !self.is_visited(current) {
                // the walk ran out of fuel: grow the tree by one
                // deterministic leaf step at the visited boundary instead
                proof {
                    lemma_boundary_exists(
                        *self,
                        current.x as int,
                        current.y as int,
                        seed.x as int,
                        seed.y as int,
                    );
                }
                let b = self.find_boundary();
                let bn = step(b.0, b.1);
                path = Vec::new();
                path.push(b.0);
                path.push(bn);
                dir_path = Vec::new();
                dir_path.push(b.1);
            } else {
                proof {
                    if path@.len() == 1 {
                        assert(current == start);
                        assert(false);
                    }
                }
            }
            proof {
                assert(path_ok(path@, dir_path@));
                assert(dir_path@.len() >= 1);
                assert(self.visited(
                    path@[dir_path@.len() as int].x as int,
                    path@[dir_path@.len() as int].y as int,
                ));
                assert(forall|j: int|
                    0 <= j < dir_path@.len() ==> !self.visited(
                        (#[trigger] path@[j]).x as int,
                        path@[j].y as int,
                    ));
            }
            let ghost lenh = self.spec_unvisited().len();
            let fr = self.commit_path(&path, &dir_path, Ghost(seed), Ghost(f));
            proof {
                f = fr@;
                assert(self.visited(seed.x as int, seed.y as int));
                assert(self.spec_unvisited().len() < lenh);
            }
        }
        proof {
            assert forall|x: int, y: int|
                0 <= x < MAZE_SIZE && 0 <= y < MAZE_SIZE implies #[trigger] self.visited(x, y) by {
                let c = Coord { x: x as usize, y: y as usize };
                if !self.visited(x, y) {
                    assert(self.spec_unvisited().contains(c));
                    let i = choose|i: int|
                        0 <= i < self.spec_unvisited().len() && self.spec_unvisited()[i] == c;
                    assert(false);
                }
            }
            assert forall|c: Coord| in_grid(c) implies #[trigger] connected(*self, seed, c) by {
                assert(self.visited(c.x as int, c.y as int));
                lemma_cert_joined(*self, seed, f, c);
                assert(joined(*self, seed, c, f[c]));
            }
            assert(spans(*self, seed));
        }
    }

    /// Copy the generator's interior walls into a border-padded maze with
    /// every border wall present; the tile cache is not derived yet.
    pub fn extract_maze(&self) -> (m: Maze)
        requires
            self.wf(),
        ensures
            m.wf(),
            m.border_walled(),
            forall|x: int, y: int|
                0 <= x < MAZE_SIZE && 1 <= y < MAZE_SIZE ==> #[trigger] m.vwall(x, y)
                    == self.vwall(x, y - 1),
            forall|x: int, y: int|
                1 <= x < MAZE_SIZE && 0 <= y < MAZE_SIZE ==> #[trigger] m.hwall(x, y)
                    == self.hwall(x - 1, y),
            forall|x: int, y: int|
                0 <= x < MAZE_SIZE && 0 <= y < MAZE_SIZE ==> #[trigger] m.spec_tiles()[cell_idx(
                    x,
                    y,
                )] == (Coord { x: 0, y: 0 }),
    {
        Maze::from_interior(&self.vertical_walls, &self.horizontal_walls)
    }

    /// Scan for an unvisited cell with a visited neighbour.
    fn find_boundary(&self) -> (r: (Coord, Direction))
        requires
            self.wf(),
            exists|c: Coord, d: Direction| is_boundary(*self, c, d),
        ensures
            is_boundary(*self, r.0, r.1),
    {
        let mut y: usize = 0;
        while y < MAZE_SIZE
            invariant
                y <= MAZE_SIZE,
                forall|c: Coord, d: Direction| #[trigger] is_boundary(*self, c, d) ==> c.y >= y,
            decreases MAZE_SIZE - y,
        {
            let mut x: usize = 0;
            while x < MAZE_SIZE
                invariant
                    x <= MAZE_SIZE,
                    forall|c: Coord, d: Direction|
                        #[trigger] is_boundary(*self, c, d) ==> c.y > y || (c.y == y && c.x >= x),
                decreases MAZE_SIZE - x,
            {
                let c = Coord { x, y };
                if !self.is_visited(c) {
                    if c.y > 0 && self.is_visited(Coord { x: c.x, y: c.y - 1 }) {
                        return (c, Direction::Up);
                    }
                    if c.x + 1 < MAZE_SIZE && self.is_visited(Coord { x: c.x + 1, y: c.y }) {
                        return (c, Direction::Right);
                    }
                    if c.y + 1 < MAZE_SIZE && self.is_visited(Coord { x: c.x, y: c.y + 1 }) {
                        return (c, Direction::Down);
                    }
                    if c.x > 0 && self.is_visited(Coord { x: c.x - 1, y: c.y }) {
                        return (c, Direction::Left);
                    }
                }
                proof {
                    assert forall|d: Direction| !is_boundary(*self, c, d) by {
                        if is_boundary(*self, c, d) {
                            match d {
                                Direction::Up => assert(false),
                                Direction::Right => assert(false),
                                Direction::Down => assert(false),
                                Direction::Left => assert(false),
                            }
                        }
                    }
                }
                x += 1;
            }
            y += 1;
        }
        proof {
            let (c, d) = choose|c: Coord, d: Direction| is_boundary(*self, c, d);
            assert(false);
        }
        (Coord { x: 0, y: 0 }, Direction::Up)
    }
}

/// Membership and distinctness carry over removing index `k` from a
/// duplicate-free sequence: exactly the element at `k` disappears.
proof fn lemma_distinct_remove(s: Seq<Coord>, k: int)
    requires
        0 <= k < s.len(),
        forall|i: int, j: int| 0 <= i < j < s.len() ==> s[i] != s[j],
    ensures
        s.remove(k).len() == s.len() - 1,
        forall|d: Coord| #[trigger] s.remove(k).contains(d) <==> (s.contains(d) && d != s[k]),
        forall|i: int, j: int|
            0 <= i < j < s.remove(k).len() ==> s.remove(k)[i] != s.remove(k)[j],
        forall|i: int| 0 <= i < s.remove(k).len() ==> s.contains(#[trigger] s.remove(k)[i]),
{
    s.remove_ensures(k);
    let t = s.remove(k);
    assert forall|d: Coord| #[trigger] t.contains(d) implies (s.contains(d) && d != s[k]) by {
        let i = choose|i: int| 0 <= i < t.len() && t[i] == d;
        if i < k {
            assert(s[i] == d);
        } else {
            assert(s[i + 1] == d);
        }
    }
    assert forall|d: Coord| s.contains(d) && d != s[k] implies #[trigger] t.contains(d) by {
        let i = choose|i: int| 0 <= i < s.len() && s[i] == d;
        if i < k {
            assert(t[i] == d);
        } else {
            assert(t[i - 1] == d);
        }
    }
    assert forall|i: int, j: int| 0 <= i < j < t.len() implies t[i] != t[j] by {
        let i2 = if i < k {
            i
        } else {
            i + 1
        };
        let j2 = if j < k {
            j
        } else {
            j + 1
        };
        assert(t[i] == s[i2]);
        assert(t[j] == s[j2]);
    }
    assert forall|i: int| 0 <= i < t.len() implies s.contains(#[trigger] t[i]) by {
        if i < k {
            assert(t[i] == s[i]);
        } else {
            assert(t[i] == s[i + 1]);
        }
    }
}

/// The set of all `size * size` grid coordinates, each exactly once — the
/// initial unvisited set of a generation.
pub fn gen_hashset(size: usize) -> (r: Vec<Coord>)
    requires
        size * size <= usize::MAX,
    ensures
        r@.len() == size * size,
        forall|c: Coord| #[trigger] r@.contains(c) <==> (c.x < size && c.y < size),
        forall|i: int, j: int| 0 <= i < j < r@.len() ==> r@[i] != r@[j],
        forall|i: int| 0 <= i < r@.len() ==> (#[trigger] r@[i]).x < size && r@[i].y < size,
{
    let mut v: Vec<Coord> = Vec::new();
    let mut y: usize = 0;
    while y < size
        invariant
            y <= size,
            size * size <= usize::MAX,
            v@.len() == y * size,
            forall|c: Coord| #[trigger] v@.contains(c) <==> (c.x < size && c.y < y),
            forall|i: int, j: int| 0 <= i < j < v@.len() ==> v@[i] != v@[j],
            forall|i: int| 0 <= i < v@.len() ==> (#[trigger] v@[i]).x < size && v@[i].y < size,
        decreases size - y,
    {
        let mut x: usize = 0;
        proof {
            assert(y * size + size <= size * size) by (nonlinear_arith)
                requires
                    y < size,
            ;
        }
        while x < size
            invariant
                x <= size,
                y < size,
                y * size + size <= size * size,
                size * size <= usize::MAX,
                v@.len() == y * size + x,
                forall|c: Coord|
                    #[trigger] v@.contains(c) <==> ((c.x < size && c.y < y) || (c.y == y && c.x
                        < x)),
                forall|i: int, j: int| 0 <= i < j < v@.len() ==> v@[i] != v@[j],
                forall|i: int| 0 <= i < v@.len() ==> (#[trigger] v@[i]).x < size && v@[i].y < size,
            decreases size - x,
        {
            let c = Coord { x, y };
            proof {
                assert(!v@.contains(c));
                lemma_push_contains(v@, c);
            }
            v.push(c);
            x += 1;
        }
        y += 1;
        proof {
            assert((y - 1) * size + size == y * size) by (nonlinear_arith);
        }
    }
    proof {
        assert(y * size == size * size);
    }
    v
}

/// Pushing onto a sequence adds exactly one element to its membership.
proof fn lemma_push_contains(s: Seq<Coord>, e: Coord)
    ensures
        forall|c: Coord| #[trigger] s.push(e).contains(c) <==> (s.contains(c) || c == e),
{
    let t = s.push(e);
    assert forall|c: Coord| #[trigger] t.contains(c) implies (s.contains(c) || c == e) by {
        let i = choose|i: int| 0 <= i < t.len() && t[i] == c;
        if i < s.len() {
            assert(s[i] == c);
        }
    }
    assert forall|c: Coord| s.contains(c) || c == e implies #[trigger] t.contains(c) by {
        if c == e {
            assert(t[s.len() as int] == c);
        } else {
            let i = choose|i: int| 0 <= i < s.len() && s[i] == c;
            assert(t[i] == c);
        }
    }
}

} // verus!

//! Maze generation by loop-erased random walks (Wilson's algorithm), with
//! every change of a square logged on a history tape.
//!
//! Cells of the maze lie at odd rows and columns; the squares between two
//! cells are walls until a passage is carved through them.
use vstd::prelude::*;
use crate::cell::{
    view_of, CellView, carve, open, drop_wall, add_walk, erase_walk, mark_origin, has_path,
    has_builder, has_walk, marker, is_path, NORTH_WALL, EAST_WALL, SOUTH_WALL, WEST_WALL,
    WALL_MASK,
};
use crate::maze::{
    Maze, MazeView, Point, on_grid, lemma_index, lemma_index_injective, lemma_dims, walled_grid,
    walled_bits,
};
use crate::tape::{Tape, Delta, record, replay, deltas_on_grid, lemma_replay_push};
use crate::random::{random_below, shuffle};
use crate::tree::{
    tree_shape, joins, lemma_link_ends, lemma_attach_shape, lemma_same_flags, tree_cells,
    open_links, lemma_pt_back, pt, lemma_carve_cell_shape, is_link, end_a, end_b, reachable,
    is_route, spanning_tree,
};
use crate::cell::{MARKERS_MASK, MARKER_SHIFT, PATH_BIT, BUILDER_BIT, WALK_BIT};
use rand::rngs::StdRng;
use std::sync::atomic::{AtomicBool, Ordering};

verus! {

/// The fields of the square at `q`.
pub open spec fn sq(v: MazeView, q: Point) -> CellView {
    view_of(v.at(q))
}

/// `q` is a cell of the maze: odd row and column, off the outer wall.
pub open spec fn is_cell(v: MazeView, q: Point) -> bool {
    &&& 1 <= q.row <= v.rows - 2
    &&& 1 <= q.col <= v.cols - 2
    &&& q.row % 2 == 1
    &&& q.col % 2 == 1
}

/// The tape, replayed from `origin`, gives the grid, names only its squares,
/// and records in each delta the value that it replaces.
pub open spec fn log_ok(origin: Seq<u32>, v: MazeView, ds: Seq<Delta>) -> bool {
    &&& replay(origin, v.cols, ds) == v.cells
    &&& deltas_on_grid(ds, v.rows, v.cols)
    &&& befores_ok(origin, v.cols, ds)
}

/// Each delta's `before` is the value its square holds when the deltas
/// before it are replayed from `origin`.
pub open spec fn befores_ok(origin: Seq<u32>, cols: int, ds: Seq<Delta>) -> bool {
    forall|k: int|
        0 <= k < ds.len() ==> (#[trigger] ds[k]).before == replay(origin, cols, ds.take(k))[ds[k].id.row
            * cols + ds[k].id.col]
}

/// The grid after writing `x` at `p`.
pub open spec fn written(v: MazeView, p: Point, x: u32) -> MazeView {
    MazeView { cells: v.cells.update(v.idx(p), x), ..v }
}

/// `b` has the fields of `a`, but for the wall bits.
pub open spec fn same_but_walls(a: CellView, b: CellView) -> bool {
    b == CellView { walls: b.walls, ..a }
}

/// The fields of a square after it is carved; `build` makes it a tree member.
pub open spec fn carved(c: CellView, build: bool) -> CellView {
    if build {
        CellView { walls: 0, marker: 0, walk: false, built: true, path: true, ..c }
    } else {
        CellView { walls: 0, path: true, ..c }
    }
}

/// `b` differs from `a` at most in the wall bits of squares other than `p`.
pub open spec fn walls_only_elsewhere(a: MazeView, b: MazeView, p: Point) -> bool {
    &&& b.wf()
    &&& b.same_shape(a)
    &&& forall|q: Point|
        a.in_bounds(q) && q != p ==> same_but_walls(sq(a, q), #[trigger] sq(b, q))
}

/// Reading a square after one write.
pub proof fn lemma_at_update(v: MazeView, p: Point, x: u32)
    requires
        v.wf(),
        v.in_bounds(p),
    ensures
        forall|q: Point|
            v.in_bounds(q) ==> #[trigger] written(v, p, x).at(q) == (if q == p {
                x
            } else {
                v.at(q)
            }),
{
    assert forall|q: Point| v.in_bounds(q) implies #[trigger] written(v, p, x).at(q) == (if q
        == p {
        x
    } else {
        v.at(q)
    }) by {
        lemma_index(q, v.rows, v.cols);
        lemma_index(p, v.rows, v.cols);
        if q != p {
            lemma_index_injective(p, q, v.rows, v.cols);
        }
    }
}

/// Writes `x` at `p` and logs it; the log stays a faithful record.
pub(crate) fn put(
    maze: &mut Maze,
    tape: &mut Tape,
    p: Point,
    x: u32,
    burst: usize,
    Ghost(origin): Ghost<Seq<u32>>,
)
    requires
        old(maze)@.wf(),
        old(maze)@.in_bounds(p),
        log_ok(origin, old(maze)@, old(tape)@),
    ensures
        final(maze)@.wf(),
        final(maze)@ == written(old(maze)@, p, x),
        log_ok(origin, final(maze)@, final(tape)@),
        old(tape)@.len() < final(tape)@.len(),
        final(tape)@ == old(tape)@.push(Delta { id: p, before: old(maze)@.at(p), after: x, burst }),
{
    let ghost d = Delta { id: p, before: maze@.at(p), after: x, burst };
    record(maze, tape, p, x, burst);
    proof {
        lemma_replay_push(origin, old(maze)@.cols, old(tape)@, d);
        let ds = old(tape)@;
        let cols = old(maze)@.cols;
        assert forall|k: int| 0 <= k < tape@.len() implies (#[trigger] tape@[k]).before == replay(
            origin,
            cols,
            tape@.take(k),
        )[tape@[k].id.row * cols + tape@[k].id.col] by {
            if k < ds.len() {
                assert(tape@.take(k) =~= ds.take(k));
                assert(tape@[k] == ds[k]);
            } else {
                assert(tape@.take(k) =~= ds);
            }
        }
        assert forall|i: int| 0 <= i < tape@.len() implies on_grid(
            maze@.rows,
            maze@.cols,
            #[trigger] tape@[i].id,
        ) by {
            if i < old(tape)@.len() {
                assert(tape@[i] == old(tape)@[i]);
            }
        }
    }
}

/// Whether the square at `n` is a wall that should lose its wall line `w`.
fn loses_line(maze: &Maze, n: Point) -> (b: bool)
    requires
        maze@.wf(),
    ensures
        b == (maze@.in_bounds(n) && !is_path(maze@.at(n))),
{
    maze.in_bounds(n) && !has_path(maze.get(n))
}

/// Removes the wall line `w` from the square at `n` if it is a wall.
fn drop_line(
    maze: &mut Maze,
    tape: &mut Tape,
    n: Point,
    w: u32,
    burst: usize,
    Ghost(origin): Ghost<Seq<u32>>,
)
    requires
        old(maze)@.wf(),
        log_ok(origin, old(maze)@, old(tape)@),
        w <= WALL_MASK,
    ensures
        final(maze)@.wf(),
        log_ok(origin, final(maze)@, final(tape)@),
        old(tape)@.len() <= final(tape)@.len(),
        final(maze)@.same_shape(old(maze)@),
        forall|q: Point|
            old(maze)@.in_bounds(q) && q != n ==> #[trigger] sq(final(maze)@, q) == sq(
                old(maze)@,
                q,
            ),
        old(maze)@.in_bounds(n) ==> same_but_walls(sq(old(maze)@, n), sq(final(maze)@, n)),
        forall|q: Point|
            old(maze)@.in_bounds(q) && q != n ==> #[trigger] final(maze)@.at(q) == old(maze)@.at(q),
        old(maze)@.in_bounds(n) && !is_path(old(maze)@.at(n)) ==> sq(final(maze)@, n) == (
        CellView { walls: sq(old(maze)@, n).walls & !w, ..sq(old(maze)@, n) }),
        old(maze)@.in_bounds(n) && !is_path(old(maze)@.at(n)) ==> final(tape)@ == old(tape)@.push(
            Delta { id: n, before: old(maze)@.at(n), after: final(maze)@.at(n), burst },
        ),
        !(old(maze)@.in_bounds(n) && !is_path(old(maze)@.at(n))) ==> final(maze)@ == old(maze)@
            && final(tape)@ == old(tape)@,
{
    let ghost v = maze@;
    if loses_line(maze, n) {
        let c = maze.get(n);
        let x = drop_wall(c, w);
        put(maze, tape, n, x, burst, Ghost(origin));
        proof {
            lemma_at_update(v, n, x);
        }
    }
}

/// The wall line that a square next to `p` has towards `p`; zero for any
/// other square.
pub open spec fn facing_line(p: Point, q: Point) -> u32 {
    if q.row == p.row - 1 && q.col == p.col {
        SOUTH_WALL
    } else if q.row == p.row + 1 && q.col == p.col {
        NORTH_WALL
    } else if q.row == p.row && q.col == p.col - 1 {
        EAST_WALL
    } else if q.row == p.row && q.col == p.col + 1 {
        WEST_WALL
    } else {
        0
    }
}

/// `q` is a wall next to `p`: carving `p` takes its line towards `p` off.
pub open spec fn loses(v: MazeView, p: Point, q: Point) -> bool {
    facing_line(p, q) != 0 && v.in_bounds(q) && !is_path(v.at(q))
}

pub open spec fn count(b: bool) -> int {
    if b {
        1
    } else {
        0
    }
}

/// The number of deltas in the burst that carves `p`: one for `p` and one
/// for each neighbouring wall.
pub open spec fn burst_size(v: MazeView, p: Point) -> int {
    1 + count(loses(v, p, Point { row: (p.row - 1) as i32, col: p.col })) + count(
        loses(v, p, Point { row: (p.row + 1) as i32, col: p.col }),
    ) + count(loses(v, p, Point { row: p.row, col: (p.col - 1) as i32 })) + count(
        loses(v, p, Point { row: p.row, col: (p.col + 1) as i32 }),
    )
}

/// The deltas after position `start` of `ds`: each names a neighbouring
/// wall of `p` (one of `done`) that loses its line, with the value it had in
/// `v0` and the value it has in `v`, as a member of the burst carving `p`.
pub open spec fn burst_rest(
    v0: MazeView,
    p: Point,
    start: int,
    ds: Seq<Delta>,
    v: MazeView,
    done: Set<Point>,
) -> bool {
    forall|k: int|
        start < k < ds.len() ==> {
            &&& done.contains((#[trigger] ds[k]).id)
            &&& loses(v0, p, ds[k].id)
            &&& ds[k].before == v0.at(ds[k].id)
            &&& ds[k].after == v.at(ds[k].id)
            &&& ds[k].burst == burst_size(v0, p) as usize
        }
}

proof fn lemma_burst_rest_full(
    v0: MazeView,
    p: Point,
    start: int,
    ds: Seq<Delta>,
    v: MazeView,
    done: Set<Point>,
)
    requires
        burst_rest(v0, p, start, ds, v, done),
    ensures
        burst_rest(v0, p, start, ds, v, Set::full()),
{
}

/// One neighbour's drop keeps the burst in order.
proof fn lemma_drop_stage(
    v0: MazeView,
    p: Point,
    nb: Point,
    start: int,
    ti: Seq<Delta>,
    vi: MazeView,
    tj: Seq<Delta>,
    vj: MazeView,
    done: Set<Point>,
)
    requires
        v0.wf(),
        v0.in_bounds(p),
        vi.same_shape(v0),
        facing_line(p, nb) != 0,
        nb != p,
        !done.contains(nb),
        0 <= start < ti.len(),
        vi.in_bounds(nb) ==> vi.at(nb) == v0.at(nb),
        ti[start].id == p,
        burst_rest(v0, p, start, ti, vi, done),
        ti[start].burst == burst_size(v0, p) as usize,
        forall|q: Point| vi.in_bounds(q) && q != nb ==> #[trigger] vj.at(q) == vi.at(q),
        vi.in_bounds(nb) && !is_path(vi.at(nb)) ==> tj == ti.push(
            Delta { id: nb, before: vi.at(nb), after: vj.at(nb), burst: burst_size(v0, p) as usize },
        ),
        !(vi.in_bounds(nb) && !is_path(vi.at(nb))) ==> vj == vi && tj == ti,
    ensures
        burst_rest(v0, p, start, tj, vj, done.insert(nb)),
        tj.len() == ti.len() + count(loses(v0, p, nb)),
        tj.take(start + 1) == ti.take(start + 1),
        tj[start] == ti[start],
{
    if vi.in_bounds(nb) && !is_path(vi.at(nb)) {
        assert(tj.take(start + 1) =~= ti.take(start + 1));
        assert forall|k: int| start < k < tj.len() implies {
            &&& done.insert(nb).contains((#[trigger] tj[k]).id)
            &&& loses(v0, p, tj[k].id)
            &&& tj[k].before == v0.at(tj[k].id)
            &&& tj[k].after == vj.at(tj[k].id)
            &&& tj[k].burst == burst_size(v0, p) as usize
        } by {
            if k < ti.len() {
                assert(tj[k] == ti[k]);
                assert(ti[k].id != nb);
            }
        }
    }
}

/// Carves the square at `p` into a passage and takes the facing wall line
/// off each neighbouring wall, as one burst. `build` marks the square as a
/// member of the tree.
#[verifier::rlimit(100)]
pub(crate) fn carve_square(
    maze: &mut Maze,
    tape: &mut Tape,
    p: Point,
    build: bool,
    Ghost(origin): Ghost<Seq<u32>>,
)
    requires
        old(maze)@.wf(),
        old(maze)@.in_bounds(p),
        log_ok(origin, old(maze)@, old(tape)@),
    ensures
        final(maze)@.wf(),
        log_ok(origin, final(maze)@, final(tape)@),
        old(tape)@.len() < final(tape)@.len(),
        walls_only_elsewhere(old(maze)@, final(maze)@, p),
        sq(final(maze)@, p) == carved(sq(old(maze)@, p), build),
        final(tape)@.len() == old(tape)@.len() + burst_size(old(maze)@, p),
        final(tape)@.take(old(tape)@.len() as int) == old(tape)@,
        final(tape)@[old(tape)@.len() as int] == (Delta {
            id: p,
            before: old(maze)@.at(p),
            after: final(maze)@.at(p),
            burst: burst_size(old(maze)@, p) as usize,
        }),
        burst_rest(old(maze)@, p, old(tape)@.len() as int, final(tape)@, final(maze)@, Set::full()),
        forall|q: Point|
            old(maze)@.in_bounds(q) && q != p && loses(old(maze)@, p, q) ==> #[trigger] sq(
                final(maze)@,
                q,
            ) == (CellView {
                walls: sq(old(maze)@, q).walls & !facing_line(p, q),
                ..sq(old(maze)@, q)
            }),
        forall|q: Point|
            old(maze)@.in_bounds(q) && q != p && !loses(old(maze)@, p, q)
                ==> #[trigger] final(maze)@.at(q) == old(maze)@.at(q),
{
    let ghost v0 = maze@;
    let ghost t0 = tape@;
    let ghost l0 = tape@.len() as int;
    proof {
        lemma_dims(v0);
    }
    let north = Point { row: p.row - 1, col: p.col };
    let south = Point { row: p.row + 1, col: p.col };
    let west = Point { row: p.row, col: p.col - 1 };
    let east = Point { row: p.row, col: p.col + 1 };
    let mut burst: usize = 1;
    if loses_line(maze, north) {
        burst = burst + 1;
    }
    if loses_line(maze, south) {
        burst = burst + 1;
    }
    if loses_line(maze, west) {
        burst = burst + 1;
    }
    if loses_line(maze, east) {
        burst = burst + 1;
    }
    let c = maze.get(p);
    let x = if build {
        carve(c)
    } else {
        open(c)
    };
    put(maze, tape, p, x, burst, Ghost(origin));
    proof {
        lemma_at_update(v0, p, x);
    }
    let ghost v1 = maze@;
    let ghost t1 = tape@;
    proof {
        assert(burst == burst_size(v0, p));
        assert(burst_rest(v0, p, l0, t1, v1, Set::empty()));
    }
    drop_line(maze, tape, north, SOUTH_WALL, burst, Ghost(origin));
    let ghost v2 = maze@;
    let ghost t2 = tape@;
    proof {
        if v0.in_bounds(north) {
            assert(v1.at(north) == v0.at(north));
        }
        lemma_drop_stage(v0, p, north, l0, t1, v1, t2, v2, Set::empty());
    }
    drop_line(maze, tape, south, NORTH_WALL, burst, Ghost(origin));
    let ghost v3 = maze@;
    let ghost t3 = tape@;
    proof {
        if v0.in_bounds(south) {
            assert(v1.at(south) == v0.at(south));
            assert(v2.at(south) == v1.at(south));
        }
        lemma_drop_stage(v0, p, south, l0, t2, v2, t3, v3, set![north]);
        assert(set![north].insert(south) =~= set![north, south]);
    }
    drop_line(maze, tape, west, EAST_WALL, burst, Ghost(origin));
    let ghost v4 = maze@;
    let ghost t4 = tape@;
    proof {
        if v0.in_bounds(west) {
            assert(v1.at(west) == v0.at(west));
            assert(v2.at(west) == v1.at(west));
            assert(v3.at(west) == v2.at(west));
        }
        lemma_drop_stage(v0, p, west, l0, t3, v3, t4, v4, set![north, south]);
        assert(set![north, south].insert(west) =~= set![north, south, west]);
    }
    drop_line(maze, tape, east, WEST_WALL, burst, Ghost(origin));
    proof {
        let v5 = maze@;
        let t5 = tape@;
        if v0.in_bounds(east) {
            assert(v1.at(east) == v0.at(east));
            assert(v2.at(east) == v1.at(east));
            assert(v3.at(east) == v2.at(east));
            assert(v4.at(east) == v3.at(east));
        }
        lemma_drop_stage(v0, p, east, l0, t4, v4, t5, v5, set![north, south, west]);
        lemma_burst_rest_full(v0, p, l0, t5, v5, set![north, south, west].insert(east));
        assert(t5.take(l0) =~= t0) by {
            assert(t1.take(l0) =~= t0);
        }
        assert(t5[l0] == t1[l0]);
        assert(v5.at(p) == v1.at(p));
        assert forall|q: Point| v0.in_bounds(q) && q != p && loses(v0, p, q) implies #[trigger] sq(
            v5,
            q,
        ) == (CellView { walls: sq(v0, q).walls & !facing_line(p, q), ..sq(v0, q) }) by {
            assert(q == north || q == south || q == west || q == east);
        }
        assert forall|q: Point| v0.in_bounds(q) && q != p && !loses(v0, p, q) implies #[trigger] v5.at(q)
            == v0.at(q) by {
            assert(v1.at(q) == v0.at(q));
        }
        assert(sq(v5, p) == sq(v1, p)) by {
            assert(sq(v2, p) == sq(v1, p));
            assert(sq(v3, p) == sq(v2, p));
            assert(sq(v4, p) == sq(v3, p));
        }
        assert forall|q: Point| v0.in_bounds(q) && q != p implies same_but_walls(
            sq(v0, q),
            #[trigger] sq(v5, q),
        ) by {
            assert(sq(v1, q) == sq(v0, q));
            assert(same_but_walls(sq(v1, q), sq(v2, q)));
            assert(same_but_walls(sq(v2, q), sq(v3, q)));
            assert(same_but_walls(sq(v3, q), sq(v4, q)));
            assert(same_but_walls(sq(v4, q), sq(v5, q)));
        }
    }
}


/// Row change of a step between neighbouring cells: north, east, south, west.
pub open spec fn step_row(d: int) -> int {
    if d == 0 {
        -2
    } else if d == 2 {
        2
    } else {
        0
    }
}

/// Column change of a step between neighbouring cells: north, east, south, west.
pub open spec fn step_col(d: int) -> int {
    if d == 1 {
        2
    } else if d == 3 {
        -2
    } else {
        0
    }
}

/// The cell one step from `p` in direction `d`.
pub open spec fn stepped(p: Point, d: int) -> Point {
    Point { row: (p.row + step_row(d)) as i32, col: (p.col + step_col(d)) as i32 }
}

/// The wall square between `p` and the cell one step from it in direction `d`.
pub open spec fn halfway(p: Point, d: int) -> Point {
    Point { row: (p.row + step_row(d) / 2) as i32, col: (p.col + step_col(d) / 2) as i32 }
}

/// The marker left on a cell entered by a step in direction `d`: it names
/// the direction back, plus one.
pub open spec fn arrival_marker(d: int) -> u32 {
    (((d + 2) % 4) + 1) as u32
}

/// The point that stands for "no previous cell"; it is never a cell.
pub open spec fn no_point() -> Point {
    Point { row: 0, col: 0 }
}

pub(crate) fn step_from(p: Point, d: usize) -> (n: Point)
    requires
        d < 4,
        2 <= p.row + 2 <= i32::MAX,
        2 <= p.col + 2 <= i32::MAX,
        p.row >= 0,
        p.col >= 0,
    ensures
        n == stepped(p, d as int),
{
    if d == 0 {
        Point { row: p.row - 2, col: p.col }
    } else if d == 1 {
        Point { row: p.row, col: p.col + 2 }
    } else if d == 2 {
        Point { row: p.row + 2, col: p.col }
    } else {
        Point { row: p.row, col: p.col - 2 }
    }
}

/// What the tree and the squares outside the walk look like at all times:
/// a tree cell is a carved passage with no walk marks; a cell outside the
/// tree is not a passage; a square that is no cell never carries walk marks.
pub open spec fn tree_ok(v: MazeView) -> bool {
    forall|q: Point|
        v.in_bounds(q) ==> {
            let c = #[trigger] sq(v, q);
            &&& !is_cell(v, q) ==> !c.walk && c.marker == 0
            &&& is_cell(v, q) && c.built ==> c.path && !c.walk && c.marker == 0
            &&& is_cell(v, q) && !c.built ==> !c.path
        }
}

/// The current walk, first cell first: distinct cells outside the tree,
/// each marked as on the walk, each but the first with a marker that points
/// back to the cell before it. No other cell carries walk marks.
pub open spec fn path_ok(v: MazeView, path: Seq<Point>) -> bool {
    &&& path.len() >= 1
    &&& path.no_duplicates()
    &&& forall|i: int|
        0 <= i < path.len() ==> {
            &&& is_cell(v, #[trigger] path[i])
            &&& !sq(v, path[i]).built
            &&& sq(v, path[i]).walk
        }
    &&& sq(v, path[0]).marker == 0
    &&& forall|i: int|
        0 < i < path.len() ==> {
            let m = sq(v, #[trigger] path[i]).marker;
            &&& 1 <= m <= 4
            &&& stepped(path[i], m - 1) == path[i - 1]
        }
    &&& forall|q: Point|
        is_cell(v, q) && !path.contains(q) ==> !(#[trigger] sq(v, q)).walk && sq(v, q).marker
            == 0
}

/// The state of a loop-erased random walk between steps.
pub struct RandomWalk {
    /// Rows above this one hold tree cells only.
    pub prev_row_start: i32,
    /// The cell the walk came from, or `no_point()` at its first cell.
    pub prev: Point,
    /// The head of the walk.
    pub walk: Point,
    /// The grid from which the tape replays.
    pub origin: Ghost<Seq<u32>>,
    /// The cells of the walk, first cell first.
    pub path: Ghost<Seq<Point>>,
    /// The first tree cell, from which every tree cell can be reached.
    pub root: Ghost<Point>,
}

impl RandomWalk {
    pub open spec fn inv(&self, v: MazeView, ds: Seq<Delta>) -> bool {
        &&& self.shape_inv(v)
        &&& log_ok(self.origin@, v, ds)
    }

    /// The walk and the tree agree with the grid.
    pub open spec fn shape_inv(&self, v: MazeView) -> bool {
        &&& v.wf()
        &&& 3 <= v.rows
        &&& 3 <= v.cols
        &&& tree_ok(v)
        &&& tree_shape(v, self.root@)
        &&& path_ok(v, self.path@)
        &&& self.walk == self.path@.last()
        &&& self.path@.len() == 1 ==> self.prev == no_point()
        &&& self.path@.len() >= 2 ==> self.prev == self.path@[self.path@.len() - 2]
        &&& 1 <= self.prev_row_start
        &&& self.prev_row_start % 2 == 1
        &&& forall|q: Point|
            is_cell(v, q) && q.row < self.prev_row_start ==> (#[trigger] sq(v, q)).built
    }
}

/// A finished maze: every cell is a tree cell, and no square carries walk marks.
pub open spec fn complete(v: MazeView) -> bool {
    &&& tree_ok(v)
    &&& forall|q: Point| is_cell(v, q) ==> (#[trigger] sq(v, q)).built
}

/// A cell lies on the grid, and a step of two squares from it stays within
/// the range of `i32`.
pub(crate) proof fn lemma_cell_bounds(v: MazeView, q: Point)
    requires
        v.wf(),
        is_cell(v, q),
    ensures
        v.in_bounds(q),
        1 <= q.row + 2 <= i32::MAX,
        1 <= q.col + 2 <= i32::MAX,
{
    crate::maze::lemma_dims(v);
}

/// Where a point of a tail of the walk stands in the whole walk.
proof fn lemma_in_tail(path: Seq<Point>, lo: int, q: Point) -> (i: int)
    requires
        0 <= lo <= path.len(),
        path.subrange(lo, path.len() as int).contains(q),
    ensures
        lo <= i < path.len(),
        path[i] == q,
{
    let sub = path.subrange(lo, path.len() as int);
    let t = choose|t: int| 0 <= t < sub.len() && sub[t] == q;
    assert(sub[t] == path[lo + t]);
    lo + t
}

/// Where a point of the walk stands in it.
proof fn lemma_in_path(path: Seq<Point>, q: Point) -> (i: int)
    requires
        path.contains(q),
    ensures
        0 <= i < path.len(),
        path[i] == q,
{
    choose|t: int| 0 <= t < path.len() && path[t] == q
}

/// The deltas that erasing the loop from the head of `path` back to
/// position `path.len() - 1 - m` appends: one for each erased cell, head
/// first, with its value in `v0` before and in `v` after.
pub open spec fn erase_log(v0: MazeView, v: MazeView, path: Seq<Point>, m: int) -> Seq<Delta> {
    Seq::new(
        m as nat,
        |i: int|
            Delta {
                id: path[path.len() - 1 - i],
                before: v0.at(path[path.len() - 1 - i]),
                after: v.at(path[path.len() - 1 - i]),
                burst: 1,
            },
    )
}

/// Erases the loop at the end of the walk: from the head back to (not
/// including) `root = path[j]`, each cell loses its walk bit and marker.
#[verifier::rlimit(60)]
fn erase_loop(
    maze: &mut Maze,
    tape: &mut Tape,
    head: Point,
    root: Point,
    Ghost(origin): Ghost<Seq<u32>>,
    Ghost(path): Ghost<Seq<Point>>,
    Ghost(j): Ghost<int>,
)
    requires
        old(maze)@.wf(),
        log_ok(origin, old(maze)@, old(tape)@),
        tree_ok(old(maze)@),
        path_ok(old(maze)@, path),
        head == path.last(),
        0 <= j < path.len(),
        path[j] == root,
    ensures
        final(maze)@.wf(),
        final(maze)@.same_shape(old(maze)@),
        log_ok(origin, final(maze)@, final(tape)@),
        tree_ok(final(maze)@),
        path_ok(final(maze)@, path.take(j + 1)),
        forall|i: int|
            j < i < path.len() ==> !sq(final(maze)@, #[trigger] path[i]).walk && sq(
                final(maze)@,
                path[i],
            ).marker == 0,
        forall|q: Point|
            old(maze)@.in_bounds(q) ==> (#[trigger] sq(final(maze)@, q)).built == sq(
                old(maze)@,
                q,
            ).built && sq(final(maze)@, q).path == sq(old(maze)@, q).path,
        forall|i: int|
            j < i < path.len() ==> sq(final(maze)@, #[trigger] path[i]) == (CellView {
                walk: false,
                marker: 0,
                ..sq(old(maze)@, path[i])
            }),
        forall|q: Point|
            old(maze)@.in_bounds(q) && !path.subrange(j + 1, path.len() as int).contains(q)
                ==> #[trigger] final(maze)@.at(q) == old(maze)@.at(q),
        final(tape)@ == old(tape)@ + erase_log(
            old(maze)@,
            final(maze)@,
            path,
            path.len() - 1 - j,
        ),
{
    let ghost v0 = maze@;
    let ghost t0 = tape@;
    let ghost n = path.len() as int;
    let mut cur = head;
    let ghost mut k: int = n - 1;
    while cur != root
        invariant
            v0.wf(),
            maze@.wf(),
            maze@.same_shape(v0),
            log_ok(origin, maze@, tape@),
            tree_ok(v0),
            path_ok(v0, path),
            n == path.len(),
            path[j] == root,
            0 <= j <= k < n,
            cur == path[k],
            forall|i: int|
                k < i < n ==> sq(maze@, #[trigger] path[i]) == (CellView {
                    walk: false,
                    marker: 0,
                    ..sq(v0, path[i])
                }),
            forall|q: Point|
                v0.in_bounds(q) && !path.subrange(k + 1, n).contains(q) ==> #[trigger] sq(maze@, q)
                    == sq(v0, q),
            forall|q: Point|
                v0.in_bounds(q) && !path.subrange(k + 1, n).contains(q) ==> #[trigger] maze@.at(q)
                    == v0.at(q),
            tape@ == t0 + erase_log(v0, maze@, path, n - 1 - k),
        decreases k,
    {
        proof {
            if k == j {
                assert(cur == root);
            }
            assert(!path.subrange(k + 1, n).contains(cur)) by {
                if path.subrange(k + 1, n).contains(cur) {
                    let u = lemma_in_tail(path, k + 1, cur);
                    assert(path[u] == path[k]);
                }
            }
            lemma_cell_bounds(v0, cur);
            assert(k > j);
            assert(sq(maze@, path[k]) == sq(v0, path[k]));
        }
        let c = maze.get(cur);
        let m = marker(c);
        let ghost vb = maze@;
        let ghost tb = tape@;
        let x = erase_walk(c);
        put(maze, tape, cur, x, 1, Ghost(origin));
        proof {
            lemma_at_update(vb, cur, x);
            assert(vb.at(cur) == v0.at(cur));
            assert forall|q: Point|
                v0.in_bounds(q) && !path.subrange(k, n).contains(q) implies #[trigger] maze@.at(q)
                == v0.at(q) by {
                assert(path.subrange(k, n)[0] == cur);
                if path.subrange(k + 1, n).contains(q) {
                    let u = lemma_in_tail(path, k + 1, q);
                    assert(path.subrange(k, n)[u - k] == q);
                }
            }
            let lg = erase_log(v0, maze@, path, n - k);
            assert(tape@ =~= t0 + lg) by {
                assert forall|i: int| 0 <= i < n - k implies #[trigger] lg[i] == (t0 + erase_log(
                    v0,
                    vb,
                    path,
                    n - 1 - k,
                )).push(Delta { id: cur, before: vb.at(cur), after: x, burst: 1 })[t0.len() + i] by {
                    if i < n - 1 - k {
                        let id = path[n - 1 - i];
                        assert(id != cur);
                        lemma_cell_bounds(v0, id);
                    }
                }
            }
            assert(path.subrange(k, n) =~= path.subrange(k + 1, n).insert(0, cur));
            assert forall|q: Point|
                v0.in_bounds(q) && !path.subrange(k, n).contains(q) implies #[trigger] sq(maze@, q)
                == sq(v0, q) by {
                assert(path.subrange(k, n)[0] == cur);
                if path.subrange(k + 1, n).contains(q) {
                    let u = lemma_in_tail(path, k + 1, q);
                    assert(path.subrange(k, n)[u - k] == q);
                }
                assert(maze@.at(q) == vb.at(q));
                assert(sq(vb, q) == sq(v0, q));
            }
            assert forall|i: int| k - 1 < i < n implies sq(maze@, #[trigger] path[i]) == (
            CellView { walk: false, marker: 0, ..sq(v0, path[i]) }) by {
                if i > k {
                    assert(path[i] != path[k]);
                }
            }
        }
        cur = step_from(cur, (m - 1) as usize);
        proof {
            k = k - 1;
        }
    }
    proof {
        let v = maze@;
        let pre = path.take(j + 1);
        assert(k == j) by {
            if k != j {
                assert(path[k] != path[j]);
            }
        }
        assert(n - 1 - k == path.len() - 1 - j);
        assert forall|q: Point| v.in_bounds(q) implies {
            let c = #[trigger] sq(v, q);
            &&& !is_cell(v, q) ==> !c.walk && c.marker == 0
            &&& is_cell(v, q) && c.built ==> c.path && !c.walk && c.marker == 0
            &&& is_cell(v, q) && !c.built ==> !c.path
        } by {
            assert(sq(v0, q) == sq(v0, q));
            if path.subrange(k + 1, n).contains(q) {
                let u = lemma_in_tail(path, k + 1, q);
                    assert(path[u] == q);
            }
        }
        assert forall|i: int| 0 <= i < pre.len() implies {
            &&& is_cell(v, #[trigger] pre[i])
            &&& !sq(v, pre[i]).built
            &&& sq(v, pre[i]).walk
        } by {
            assert(pre[i] == path[i]);
            assert(!path.subrange(k + 1, n).contains(path[i])) by {
                if path.subrange(k + 1, n).contains(path[i]) {
                    let u = lemma_in_tail(path, k + 1, path[i]);
                    assert(path[u] == path[i]);
                }
            }
        }
        assert(!path.subrange(k + 1, n).contains(path[0])) by {
            if path.subrange(k + 1, n).contains(path[0]) {
                let u = lemma_in_tail(path, k + 1, path[0]);
                    assert(path[u] == path[0]);
            }
        }
        assert forall|i: int| 0 < i < pre.len() implies {
            let m = sq(v, #[trigger] pre[i]).marker;
            &&& 1 <= m <= 4
            &&& stepped(pre[i], m - 1) == pre[i - 1]
        } by {
            assert(pre[i] == path[i]);
            assert(pre[i - 1] == path[i - 1]);
            assert(!path.subrange(k + 1, n).contains(path[i])) by {
                if path.subrange(k + 1, n).contains(path[i]) {
                    let u = lemma_in_tail(path, k + 1, path[i]);
                    assert(path[u] == path[i]);
                }
            }
        }
        assert forall|q: Point| is_cell(v, q) && !pre.contains(q) implies !(#[trigger] sq(
            v,
            q,
        )).walk && sq(v, q).marker == 0 by {
            lemma_cell_bounds(v0, q);
            if path.subrange(k + 1, n).contains(q) {
                let u = lemma_in_tail(path, k + 1, q);
                assert(path[u] == q);
            } else if path.contains(q) {
                let t = lemma_in_path(path, q);
                if t <= j {
                    assert(pre[t] == q);
                } else {
                    assert(path.subrange(k + 1, n)[t - k - 1] == q);
                }
            }
        }
        assert forall|q: Point| v0.in_bounds(q) implies (#[trigger] sq(v, q)).built == sq(
            v0,
            q,
        ).built && sq(v, q).path == sq(v0, q).path by {
            if path.subrange(k + 1, n).contains(q) {
                let u = lemma_in_tail(path, k + 1, q);
                assert(path[u] == q);
            }
        }
        assert(pre.no_duplicates()) by {
            assert forall|a: int, b: int| 0 <= a < b < pre.len() implies pre[a] != pre[b] by {
                assert(pre[a] == path[a] && pre[b] == path[b]);
            }
        }
    }
}

/// Carving a cell into the tree, or opening a square that is no cell,
/// keeps `tree_ok`.
pub(crate) proof fn lemma_carve_keeps_tree(a: MazeView, b: MazeView, p: Point, build: bool)
    requires
        a.wf(),
        tree_ok(a),
        a.in_bounds(p),
        walls_only_elsewhere(a, b, p),
        sq(b, p) == carved(sq(a, p), build),
        build == is_cell(a, p),
    ensures
        tree_ok(b),
{
    assert forall|q: Point| b.in_bounds(q) implies {
        let c = #[trigger] sq(b, q);
        &&& !is_cell(b, q) ==> !c.walk && c.marker == 0
        &&& is_cell(b, q) && c.built ==> c.path && !c.walk && c.marker == 0
        &&& is_cell(b, q) && !c.built ==> !c.path
    } by {
        assert(sq(a, q) == sq(a, q));
    }
}

/// The square halfway between two points.
pub open spec fn between(a: Point, b: Point) -> Point {
    Point { row: ((a.row + b.row) / 2) as i32, col: ((a.col + b.col) / 2) as i32 }
}

pub(crate) fn between_exec(a: Point, b: Point) -> (m: Point)
    requires
        -2 <= b.row - a.row <= 2,
        -2 <= b.col - a.col <= 2,
        (a.row + b.row) % 2 == 0,
        (a.col + b.col) % 2 == 0,
    ensures
        m == between(a, b),
{
    Point { row: a.row + (b.row - a.row) / 2, col: a.col + (b.col - a.col) / 2 }
}

/// Two neighbouring cells are joined by the link halfway between them.
pub(crate) proof fn lemma_between(v: MazeView, a: Point, d: int)
    requires
        v.wf(),
        0 <= d < 4,
        is_cell(v, a),
        is_cell(v, stepped(a, d)),
    ensures
        joins(v, between(a, stepped(a, d)), a, stepped(a, d)),
        joins(v, between(stepped(a, d), a), stepped(a, d), a),
        between(a, stepped(a, d)) == between(stepped(a, d), a),
        between(a, stepped(a, d)) == halfway(a, d),
{
    lemma_dims(v);
}

/// Carves the cell `c`, outside the tree, and then the link `l` that joins
/// it to the tree cell `s`.
#[verifier::rlimit(40)]
fn attach(
    maze: &mut Maze,
    tape: &mut Tape,
    c: Point,
    l: Point,
    s: Point,
    Ghost(origin): Ghost<Seq<u32>>,
    Ghost(root): Ghost<Point>,
)
    requires
        old(maze)@.wf(),
        log_ok(origin, old(maze)@, old(tape)@),
        tree_ok(old(maze)@),
        tree_shape(old(maze)@, root),
        is_cell(old(maze)@, c),
        !sq(old(maze)@, c).built,
        is_cell(old(maze)@, s),
        sq(old(maze)@, s).built,
        joins(old(maze)@, l, c, s),
    ensures
        final(maze)@.wf(),
        final(maze)@.same_shape(old(maze)@),
        log_ok(origin, final(maze)@, final(tape)@),
        tree_ok(final(maze)@),
        tree_shape(final(maze)@, root),
        same_but_walls(carved(sq(old(maze)@, c), true), sq(final(maze)@, c)),
        forall|q: Point|
            old(maze)@.in_bounds(q) && q != c && !is_cell(old(maze)@, q) ==> same_but_walls(
                sq(old(maze)@, q),
                #[trigger] sq(final(maze)@, q),
            ) || q == l,
        forall|q: Point|
            old(maze)@.in_bounds(q) && q != c && is_cell(old(maze)@, q) ==> same_but_walls(
                sq(old(maze)@, q),
                #[trigger] sq(final(maze)@, q),
            ),
{
    let ghost v = maze@;
    proof {
        lemma_link_ends(v, l);
        lemma_cell_bounds(v, c);
    }
    carve_square(maze, tape, c, true, Ghost(origin));
    let ghost v1 = maze@;
    proof {
        lemma_carve_keeps_tree(v, v1, c, true);
    }
    carve_square(maze, tape, l, false, Ghost(origin));
    proof {
        let v2 = maze@;
        lemma_carve_keeps_tree(v1, v2, l, false);
        lemma_attach_shape(v, v1, v2, c, l, s, root);
        assert(same_but_walls(sq(v1, c), sq(v2, c)));
        assert forall|q: Point| v.in_bounds(q) && q != c && is_cell(v, q) implies same_but_walls(
            sq(v, q),
            #[trigger] sq(v2, q),
        ) by {
            assert(same_but_walls(sq(v, q), sq(v1, q)));
            assert(same_but_walls(sq(v1, q), sq(v2, q)));
        }
        assert forall|q: Point|
            v.in_bounds(q) && q != c && !is_cell(v, q) implies same_but_walls(
            sq(v, q),
            #[trigger] sq(v2, q),
        ) || q == l by {
            assert(same_but_walls(sq(v, q), sq(v1, q)));
            if q != l {
                assert(same_but_walls(sq(v1, q), sq(v2, q)));
            }
        }
    }
}

/// Carves the walk into the tree: the link from the head to the tree cell
/// `next`, then from the head back to the first cell, each cell and the
/// link to the cell carved before it.
#[verifier::rlimit(100)]
fn connect_walk(
    maze: &mut Maze,
    tape: &mut Tape,
    head: Point,
    next: Point,
    d: usize,
    Ghost(origin): Ghost<Seq<u32>>,
    Ghost(path): Ghost<Seq<Point>>,
    Ghost(root): Ghost<Point>,
)
    requires
        old(maze)@.wf(),
        log_ok(origin, old(maze)@, old(tape)@),
        tree_ok(old(maze)@),
        tree_shape(old(maze)@, root),
        path_ok(old(maze)@, path),
        head == path.last(),
        d < 4,
        next == stepped(head, d as int),
        is_cell(old(maze)@, next),
        sq(old(maze)@, next).built,
    ensures
        final(maze)@.wf(),
        final(maze)@.same_shape(old(maze)@),
        log_ok(origin, final(maze)@, final(tape)@),
        tree_ok(final(maze)@),
        tree_shape(final(maze)@, root),
        forall|q: Point|
            is_cell(old(maze)@, q) ==> (#[trigger] sq(final(maze)@, q)).built == (sq(
                old(maze)@,
                q,
            ).built || path.contains(q)),
        forall|q: Point|
            is_cell(old(maze)@, q) ==> !(#[trigger] sq(final(maze)@, q)).walk && sq(
                final(maze)@,
                q,
            ).marker == 0,
{
    let ghost v0 = maze@;
    let ghost n = path.len() as int;
    let mut cur = head;
    let mut succ = next;
    let ghost mut k: int = n - 1;
    proof {
        lemma_cell_bounds(v0, cur);
        lemma_cell_bounds(v0, next);
        lemma_between(v0, head, d as int);
    }
    while marker(maze.get(cur)) != 0
        invariant
            v0.wf(),
            tree_ok(v0),
            path_ok(v0, path),
            n == path.len(),
            maze@.wf(),
            maze@.same_shape(v0),
            log_ok(origin, maze@, tape@),
            tree_ok(maze@),
            tree_shape(maze@, root),
            0 <= k < n,
            cur == path[k],
            maze@.in_bounds(cur),
            is_cell(v0, succ),
            sq(maze@, succ).built,
            joins(maze@, between(cur, succ), cur, succ),
            forall|i: int|
                0 <= i <= k ==> same_but_walls(
                    sq(v0, #[trigger] path[i]),
                    sq(maze@, path[i]),
                ),
            forall|i: int| k < i < n ==> (#[trigger] sq(maze@, path[i])).built,
            forall|q: Point|
                is_cell(v0, q) && !path.contains(q) ==> same_but_walls(
                    sq(v0, q),
                    #[trigger] sq(maze@, q),
                ),
        decreases k,
    {
        let m = marker(maze.get(cur));
        proof {
            assert(same_but_walls(sq(v0, path[k]), sq(maze@, path[k])));
            assert(k > 0);
            lemma_cell_bounds(v0, path[k]);
            lemma_cell_bounds(v0, path[k - 1]);
            lemma_cell_bounds(v0, succ);
            lemma_between(maze@, path[k], m - 1);
        }
        let dd = (m - 1) as usize;
        let link = between_exec(cur, succ);
        let ghost v1 = maze@;
        attach(maze, tape, cur, link, succ, Ghost(origin), Ghost(root));
        proof {
            let v3 = maze@;
            assert forall|i: int| 0 <= i <= k - 1 implies same_but_walls(
                sq(v0, #[trigger] path[i]),
                sq(v3, path[i]),
            ) by {
                assert(path[i] != path[k]);
                assert(same_but_walls(sq(v0, path[i]), sq(v1, path[i])));
                lemma_cell_bounds(v0, path[i]);
            }
            assert forall|i: int| k - 1 < i < n implies (#[trigger] sq(v3, path[i])).built by {
                lemma_cell_bounds(v0, path[i]);
                if i > k {
                    assert(sq(v1, path[i]).built);
                }
            }
            assert forall|q: Point| is_cell(v0, q) && !path.contains(q) implies same_but_walls(
                sq(v0, q),
                #[trigger] sq(v3, q),
            ) by {
                lemma_cell_bounds(v0, q);
                assert(q != path[k]);
                assert(same_but_walls(sq(v0, q), sq(v1, q)));
            }
            assert(sq(v3, path[k]).built);
        }
        let back = step_from(cur, dd);
        succ = cur;
        cur = back;
        proof {
            k = k - 1;
        }
    }
    proof {
        assert(same_but_walls(sq(v0, path[k]), sq(maze@, path[k])));
        assert(k == 0);
        lemma_cell_bounds(v0, succ);
    }
    let ghost v4 = maze@;
    let link = between_exec(cur, succ);
    attach(maze, tape, cur, link, succ, Ghost(origin), Ghost(root));
    proof {
        let v5 = maze@;
        assert forall|q: Point| is_cell(v0, q) implies (#[trigger] sq(v5, q)).built == (sq(
            v0,
            q,
        ).built || path.contains(q)) && !sq(v5, q).walk && sq(v5, q).marker == 0 by {
            lemma_cell_bounds(v0, q);
            if path.contains(q) {
                let i = lemma_in_path(path, q);
                if i > 0 {
                    assert(sq(v4, path[i]).built);
                }
            } else {
                assert(same_but_walls(sq(v0, q), sq(v4, q)));
            }
        }
    }
}

pub(crate) fn is_cell_at(maze: &Maze, p: Point) -> (b: bool)
    requires
        maze@.wf(),
    ensures
        b == is_cell(maze@, p),
{
    1 <= p.row && p.row <= maze.rows() - 2 && 1 <= p.col && p.col <= maze.cols() - 2 && p.row % 2
        == 1 && p.col % 2 == 1
}

/// `p` comes first, row by row, among the cells from row `from` on that are
/// not in the tree: every cell before it there is a tree cell.
pub open spec fn first_open_cell(v: MazeView, from: int, p: Point) -> bool {
    &&& is_cell(v, p)
    &&& !sq(v, p).built
    &&& from <= p.row
    &&& forall|q: Point|
        is_cell(v, q) && from <= q.row && (q.row < p.row || (q.row == p.row && q.col < p.col))
            ==> (#[trigger] sq(v, q)).built
}

/// The first cell row by row, from row `from` on, that is not yet in the tree.
fn find_start(maze: &Maze, from: i32) -> (r: Option<Point>)
    requires
        maze@.wf(),
        1 <= from <= maze@.rows,
        from % 2 == 1,
    ensures
        r matches Some(p) ==> {
            &&& is_cell(maze@, p)
            &&& !sq(maze@, p).built
            &&& from <= p.row
            &&& first_open_cell(maze@, from as int, p)
        },
        r is None ==> forall|q: Point|
            is_cell(maze@, q) && from <= q.row ==> (#[trigger] sq(maze@, q)).built,
{
    proof {
        crate::maze::lemma_dims(maze@);
    }
    let mut r: i32 = from;
    while r <= maze.rows() - 2
        invariant
            maze@.wf(),
            1 <= from <= r,
            r % 2 == 1,
            r <= maze@.rows,
            maze@.rows <= crate::maze::MAX_SQUARES,
            maze@.cols <= crate::maze::MAX_SQUARES,
            forall|q: Point|
                is_cell(maze@, q) && from <= q.row < r ==> (#[trigger] sq(maze@, q)).built,
        decreases maze@.rows - r,
    {
        let mut c: i32 = 1;
        while c <= maze.cols() - 2
            invariant
                maze@.wf(),
                1 <= from <= r <= maze@.rows - 2,
                r % 2 == 1,
                c % 2 == 1,
                1 <= c <= maze@.cols,
                maze@.cols <= crate::maze::MAX_SQUARES,
                forall|q: Point|
                    is_cell(maze@, q) && from <= q.row < r ==> (#[trigger] sq(maze@, q)).built,
                forall|q: Point|
                    is_cell(maze@, q) && q.row == r && q.col < c ==> (#[trigger] sq(
                        maze@,
                        q,
                    )).built,
            decreases maze@.cols - c,
        {
            let p = Point { row: r, col: c };
            if !has_builder(maze.get(p)) {
                return Some(p);
            }
            c = c + 2;
        }
        r = r + 2;
    }
    None
}

/// The first direction in `order`, from position `i` on, whose step from
/// `walk` reaches a cell other than `prev`.
pub open spec fn first_dir(
    v: MazeView,
    walk: Point,
    prev: Point,
    order: Seq<usize>,
    i: int,
) -> Option<usize>
    decreases order.len() - i,
{
    if i < 0 || i >= order.len() {
        None
    } else if order[i] < 4 && is_cell(v, stepped(walk, order[i] as int)) && stepped(
        walk,
        order[i] as int,
    ) != prev {
        Some(order[i])
    } else {
        first_dir(v, walk, prev, order, i + 1)
    }
}

/// A step from `p` in direction `d`, then back by the marker it leaves,
/// returns to `p`.
pub(crate) proof fn lemma_arrival(p: Point, d: int)
    requires
        0 <= d < 4,
        1 <= p.row <= i32::MAX - 2,
        1 <= p.col <= i32::MAX - 2,
    ensures
        1 <= arrival_marker(d) <= 4,
        stepped(stepped(p, d), arrival_marker(d) - 1) == p,
{
}

impl RandomWalk {
    /// The direction the walk takes next: the first in `order` that leads to
    /// a cell other than the one it came from; where none does, back to it.
    pub open spec fn next_dir(&self, v: MazeView, order: Seq<usize>) -> Option<usize> {
        match first_dir(v, self.walk, self.prev, order, 0) {
            Some(d) => Some(d),
            None => if self.path@.len() >= 2 {
                Some((sq(v, self.walk).marker - 1) as usize)
            } else {
                None
            },
        }
    }

    fn choose_dir(&self, maze: &Maze, order: &Vec<usize>) -> (r: Option<usize>)
        requires
            self.shape_inv(maze@),
        ensures
            r == self.next_dir(maze@, order@),
            r matches Some(d) ==> d < 4 && is_cell(maze@, stepped(self.walk, d as int)),
    {
        let ghost v = maze@;
        let ghost path = self.path@;
        proof {
            lemma_cell_bounds(v, self.walk);
            assert(path[path.len() - 1] == self.walk);
        }
        let mut i: usize = 0;
        while i < order.len()
            invariant
                self.shape_inv(v),
                maze@ == v,
                v.in_bounds(self.walk),
                is_cell(v, self.walk),
                self.walk.row + 2 <= i32::MAX,
                self.walk.col + 2 <= i32::MAX,
                i <= order@.len(),
                first_dir(v, self.walk, self.prev, order@, 0) == first_dir(
                    v,
                    self.walk,
                    self.prev,
                    order@,
                    i as int,
                ),
            decreases order@.len() - i,
        {
            let d = order[i];
            if d < 4 {
                let nx = step_from(self.walk, d);
                if is_cell_at(maze, nx) && nx != self.prev {
                    return Some(d);
                }
            }
            i = i + 1;
        }
        if self.prev != (Point { row: 0, col: 0 }) {
            let m = marker(maze.get(self.walk));
            proof {
                assert(path.len() >= 2);
                let t = path.len() - 1;
                assert(path[t] == self.walk);
                lemma_cell_bounds(v, path[t - 1]);
            }
            Some((m - 1) as usize)
        } else {
            proof {
                if path.len() >= 2 {
                    lemma_cell_bounds(v, path[path.len() - 2]);
                }
            }
            None
        }
    }
}

/// Starts a new walk at `p`, a cell outside the tree, when no cell carries
/// walk marks.
fn begin_walk(maze: &mut Maze, tape: &mut Tape, p: Point, Ghost(origin): Ghost<Seq<u32>>)
    requires
        old(maze)@.wf(),
        log_ok(origin, old(maze)@, old(tape)@),
        tree_ok(old(maze)@),
        is_cell(old(maze)@, p),
        !sq(old(maze)@, p).built,
        forall|q: Point|
            is_cell(old(maze)@, q) ==> !(#[trigger] sq(old(maze)@, q)).walk && sq(
                old(maze)@,
                q,
            ).marker == 0,
    ensures
        final(maze)@.wf(),
        final(maze)@.same_shape(old(maze)@),
        log_ok(origin, final(maze)@, final(tape)@),
        tree_ok(final(maze)@),
        path_ok(final(maze)@, seq![p]),
        forall|q: Point|
            old(maze)@.in_bounds(q) ==> (#[trigger] sq(final(maze)@, q)).built == sq(
                old(maze)@,
                q,
            ).built && sq(final(maze)@, q).path == sq(old(maze)@, q).path,
{
    let ghost v = maze@;
    proof {
        lemma_cell_bounds(v, p);
    }
    let cp = maze.get(p);
    let x = add_walk(cp);
    put(maze, tape, p, x, 1, Ghost(origin));
    proof {
        lemma_at_update(v, p, x);
        let v3 = maze@;
        let np = seq![p];
        assert forall|q: Point| v3.in_bounds(q) implies {
            let c = #[trigger] sq(v3, q);
            &&& !is_cell(v3, q) ==> !c.walk && c.marker == 0
            &&& is_cell(v3, q) && c.built ==> c.path && !c.walk && c.marker == 0
            &&& is_cell(v3, q) && !c.built ==> !c.path
        } by {
            assert(sq(v, q) == sq(v, q));
            if q == p {
                assert(sq(v3, q) == (CellView { walk: true, ..sq(v, p) }));
            } else {
                assert(v3.at(q) == v.at(q));
                assert(sq(v3, q) == sq(v, q));
            }
        }
        assert forall|q: Point| is_cell(v3, q) && !np.contains(q) implies !(#[trigger] sq(
            v3,
            q,
        )).walk && sq(v3, q).marker == 0 by {
            lemma_cell_bounds(v, q);
            assert(np[0] == p);
            assert(q != p);
            assert(v3.at(q) == v.at(q));
            assert(sq(v3, q) == sq(v, q));
        }
        assert forall|q: Point| v.in_bounds(q) implies (#[trigger] sq(v3, q)).built == sq(
            v,
            q,
        ).built && sq(v3, q).path == sq(v, q).path by {
            assert(sq(v, q) == sq(v, q));
        }
        assert(np.no_duplicates());
    }
}

/// Extends the walk by the cell `next`, one step from its head in direction
/// `d`; `next` is neither in the tree nor on the walk.
fn extend_walk(
    maze: &mut Maze,
    tape: &mut Tape,
    next: Point,
    d: usize,
    Ghost(origin): Ghost<Seq<u32>>,
    Ghost(path): Ghost<Seq<Point>>,
)
    requires
        old(maze)@.wf(),
        log_ok(origin, old(maze)@, old(tape)@),
        tree_ok(old(maze)@),
        path_ok(old(maze)@, path),
        d < 4,
        next == stepped(path.last(), d as int),
        is_cell(old(maze)@, next),
        !sq(old(maze)@, next).built,
        !sq(old(maze)@, next).walk,
    ensures
        final(maze)@.wf(),
        final(maze)@.same_shape(old(maze)@),
        log_ok(origin, final(maze)@, final(tape)@),
        tree_ok(final(maze)@),
        path_ok(final(maze)@, path.push(next)),
        forall|q: Point|
            old(maze)@.in_bounds(q) ==> (#[trigger] sq(final(maze)@, q)).built == sq(
                old(maze)@,
                q,
            ).built && sq(final(maze)@, q).path == sq(old(maze)@, q).path,
        final(tape)@ == old(tape)@.push(
            Delta { id: next, before: old(maze)@.at(next), after: final(maze)@.at(next), burst: 1 },
        ),
        sq(final(maze)@, next) == (CellView {
            walk: true,
            marker: arrival_marker(d as int),
            ..sq(old(maze)@, next)
        }),
        forall|q: Point|
            old(maze)@.in_bounds(q) && q != next ==> #[trigger] final(maze)@.at(q) == old(maze)@.at(q),
{
    let ghost v = maze@;
    let ghost n = path.len() as int;
    proof {
        lemma_cell_bounds(v, next);
        lemma_cell_bounds(v, path[n - 1]);
        lemma_arrival(path[n - 1], d as int);
    }
    let c = maze.get(next);
    let x = mark_origin(c, ((d + 2) % 4 + 1) as u32);
    put(maze, tape, next, x, 1, Ghost(origin));
    proof {
        lemma_at_update(v, next, x);
        assert(maze@.at(next) == x);
        assert(!path.contains(next)) by {
            if path.contains(next) {
                let t = lemma_in_path(path, next);
            }
        }
        let np = path.push(next);
        let v1 = maze@;
        assert forall|q: Point| v1.in_bounds(q) implies {
            let c = #[trigger] sq(v1, q);
            &&& !is_cell(v1, q) ==> !c.walk && c.marker == 0
            &&& is_cell(v1, q) && c.built ==> c.path && !c.walk && c.marker == 0
            &&& is_cell(v1, q) && !c.built ==> !c.path
        } by {
            assert(sq(v, q) == sq(v, q));
            if q == next {
                assert(sq(v1, q) == (CellView { walk: true, marker: sq(v1, q).marker, ..sq(v, next) }));
            } else {
                assert(v1.at(q) == v.at(q));
                assert(sq(v1, q) == sq(v, q));
            }
        }
        assert forall|i: int| 0 <= i < np.len() implies {
            &&& is_cell(v1, #[trigger] np[i])
            &&& !sq(v1, np[i]).built
            &&& sq(v1, np[i]).walk
        } by {
            if i < n {
                assert(np[i] == path[i]);
                lemma_cell_bounds(v, path[i]);
            }
        }
        assert(np[0] == path[0]);
        lemma_cell_bounds(v, path[0]);
        assert forall|i: int| 0 < i < np.len() implies {
            let m = sq(v1, #[trigger] np[i]).marker;
            &&& 1 <= m <= 4
            &&& stepped(np[i], m - 1) == np[i - 1]
        } by {
            if i < n {
                assert(np[i] == path[i]);
                assert(np[i - 1] == path[i - 1]);
                lemma_cell_bounds(v, path[i]);
            } else {
                assert(np[i - 1] == path[n - 1]);
            }
        }
        assert forall|q: Point| is_cell(v1, q) && !np.contains(q) implies !(#[trigger] sq(
            v1,
            q,
        )).walk && sq(v1, q).marker == 0 by {
            lemma_cell_bounds(v, q);
            assert(np[n] == next);
            if path.contains(q) {
                let t = lemma_in_path(path, q);
                assert(np[t] == q);
            }
            assert(q != next);
            assert(v1.at(q) == v.at(q));
            assert(sq(v1, q) == sq(v, q));
        }
        assert(np.no_duplicates()) by {
            assert forall|a: int, b: int| 0 <= a < b < np.len() implies np[a] != np[b] by {
                if b == n {
                    assert(np[a] == path[a]);
                } else {
                    assert(np[a] == path[a] && np[b] == path[b]);
                }
            }
        }
        assert forall|q: Point| v.in_bounds(q) implies (#[trigger] sq(v1, q)).built == sq(
            v,
            q,
        ).built && sq(v1, q).path == sq(v, q).path by {
            assert(sq(v, q) == sq(v, q));
        }
    }
}

/// The loop of `path` after position `j` was erased from `v`, giving `v2`:
/// each of its cells lost its walk bit and marker, every other square
/// (the revisited cell `path[j]` among them) kept its value, and one delta
/// per erased cell, head first, was appended to `ds`.
pub open spec fn erased(
    path: Seq<Point>,
    j: int,
    v: MazeView,
    v2: MazeView,
    ds: Seq<Delta>,
    ds2: Seq<Delta>,
) -> bool {
    &&& forall|i: int|
        j < i < path.len() ==> sq(v2, #[trigger] path[i]) == (CellView {
            walk: false,
            marker: 0,
            ..sq(v, path[i])
        })
    &&& forall|q: Point|
        v.in_bounds(q) && !path.subrange(j + 1, path.len() as int).contains(q) ==> #[trigger] v2.at(q)
            == v.at(q)
    &&& ds2 == ds + erase_log(v, v2, path, path.len() - 1 - j)
}

/// What one step of the walk does, told by the square it steps onto: a tree
/// cell joins the whole walk to the tree and a new walk starts (or, with no
/// cell left outside the tree, the maze is complete); a cell of the walk
/// itself erases the loop back to it; any other cell extends the walk.
pub open spec fn step_taken(
    w: RandomWalk,
    v: MazeView,
    ds: Seq<Delta>,
    order: Seq<usize>,
    w2: RandomWalk,
    v2: MazeView,
    ds2: Seq<Delta>,
    going: bool,
) -> bool {
    match w.next_dir(v, order) {
        None => going && w2 == w && v2 == v && ds2 == ds,
        Some(d) => {
            let nx = stepped(w.walk, d as int);
            if sq(v, nx).built {
                &&& forall|q: Point|
                    is_cell(v, q) ==> (#[trigger] sq(v2, q)).built == (sq(v, q).built
                        || w.path@.contains(q))
                &&& going ==> w2.path@ == seq![w2.walk]
                &&& going ==> first_open_cell(v2, w.prev_row_start as int, w2.walk)
                &&& going ==> w2.prev_row_start == w2.walk.row
                &&& going ==> w2.prev == no_point()
                &&& !going ==> complete(v2)
            } else if sq(v, nx).walk {
                &&& going
                &&& w2.walk == nx
                &&& w2.prev_row_start == w.prev_row_start
                &&& exists|j: int|
                    0 <= j < w.path@.len() && w.path@[j] == nx && w2.path@ == w.path@.take(j + 1)
                        && erased(w.path@, j, v, v2, ds, ds2)
            } else {
                &&& going
                &&& w2.walk == nx
                &&& w2.prev == w.walk
                &&& w2.prev_row_start == w.prev_row_start
                &&& w2.path@ == w.path@.push(nx)
                &&& sq(v2, nx) == (CellView {
                    walk: true,
                    marker: arrival_marker(d as int),
                    ..sq(v, nx)
                })
                &&& forall|q: Point| v.in_bounds(q) && q != nx ==> #[trigger] v2.at(q) == v.at(q)
                &&& ds2 == ds.push(Delta { id: nx, before: v.at(nx), after: v2.at(nx), burst: 1 })
            }
        },
    }
}

impl RandomWalk {
    /// Takes one step of the walk. `order` is the order in which the four
    /// directions are tried. Returns `false` once every cell is in the tree.
    #[verifier::rlimit(80)]
    pub fn walk_step(&mut self, maze: &mut Maze, tape: &mut Tape, order: &Vec<usize>) -> (going:
        bool)
        requires
            old(self).inv(old(maze)@, old(tape)@),
        ensures
            final(maze)@.wf(),
            final(self).origin == old(self).origin,
            final(self).root == old(self).root,
            going ==> final(self).inv(final(maze)@, final(tape)@),
            !going ==> tree_shape(final(maze)@, old(self).root@),
            !going ==> complete(final(maze)@) && log_ok(
                old(self).origin@,
                final(maze)@,
                final(tape)@,
            ),
            final(maze)@.same_shape(old(maze)@),
            step_taken(
                *old(self),
                old(maze)@,
                old(tape)@,
                order@,
                *final(self),
                final(maze)@,
                final(tape)@,
                going,
            ),
    {
        let ghost v = maze@;
        let ghost path = self.path@;
        let ghost origin = self.origin@;
        let ghost n = path.len() as int;
        proof {
            lemma_cell_bounds(v, self.walk);
            assert(path[n - 1] == self.walk);
        }
        let dir = self.choose_dir(maze, order);
        let d = match dir {
            None => {
                return true;
            },
            Some(d) => d,
        };
        let next = step_from(self.walk, d);
        proof {
            lemma_cell_bounds(v, next);
        }
        let c = maze.get(next);
        if has_builder(c) {
            connect_walk(maze, tape, self.walk, next, d, self.origin, self.path, self.root);
            let ghost v2 = maze@;
            proof {
                assert forall|q: Point|
                    is_cell(v2, q) && q.row < self.prev_row_start implies (#[trigger] sq(
                    v2,
                    q,
                )).built by {
                    assert(sq(v, q).built);
                }
            }
            match find_start(maze, self.prev_row_start) {
                None => {
                    proof {
                        assert forall|q: Point| is_cell(v2, q) implies (#[trigger] sq(
                            v2,
                            q,
                        )).built by {
                            if q.row < self.prev_row_start {
                            } else {
                            }
                        }
                    }
                    false
                },
                Some(p) => {
                    begin_walk(maze, tape, p, self.origin);
                    proof {
                        lemma_same_flags(v2, maze@, self.root@);
                    }
                    self.prev_row_start = p.row;
                    self.walk = p;
                    self.prev = Point { row: 0, col: 0 };
                    let ghost single = seq![p];
                    self.path = Ghost(single);
                    proof {
                        let v3 = maze@;
                        assert forall|q: Point|
                            is_cell(v3, q) && q.row < self.prev_row_start implies (#[trigger] sq(
                            v3,
                            q,
                        )).built by {
                            assert(sq(v2, q).built);
                        }
                    }
                    true
                },
            }
        } else if has_walk(c) {
            proof {
                assert(sq(v, next).walk);
                assert(path.contains(next));
            }
            let ghost j = lemma_in_path(path, next);
            erase_loop(maze, tape, self.walk, next, self.origin, self.path, Ghost(j));
            let ghost v1 = maze@;
            proof {
                lemma_same_flags(v, v1, self.root@);
            }
            let ghost pre = path.take(j + 1);
            self.walk = next;
            let m = marker(maze.get(next));
            proof {
                assert(pre[j] == next);
                if j >= 1 {
                    assert(pre[j - 1] == path[j - 1]);
                    lemma_cell_bounds(v1, pre[j - 1]);
                }
            }
            if m == 0 {
                self.prev = Point { row: 0, col: 0 };
            } else {
                self.prev = step_from(next, (m - 1) as usize);
            }
            self.path = Ghost(pre);
            proof {
                assert forall|q: Point|
                    is_cell(v1, q) && q.row < self.prev_row_start implies (#[trigger] sq(
                    v1,
                    q,
                )).built by {
                    lemma_cell_bounds(v, q);
                    assert(sq(v, q).built);
                }
            }
            true
        } else {
            extend_walk(maze, tape, next, d, self.origin, self.path);
            proof {
                lemma_same_flags(v, maze@, self.root@);
            }
            let ghost np = path.push(next);
            self.prev = self.walk;
            self.walk = next;
            self.path = Ghost(np);
            proof {
                let v1 = maze@;
                assert forall|q: Point|
                    is_cell(v1, q) && q.row < self.prev_row_start implies (#[trigger] sq(
                    v1,
                    q,
                )).built by {
                    assert(sq(v, q).built);
                }
            }
            true
        }
    }
}

/// A square with wall bits only carries no other field.
proof fn lemma_walled_square(rows: int, cols: int, r: int, c: int)
    ensures
        !sq_of(walled_bits(rows, cols, r, c)).path,
        !sq_of(walled_bits(rows, cols, r, c)).built,
        !sq_of(walled_bits(rows, cols, r, c)).walk,
        sq_of(walled_bits(rows, cols, r, c)).marker == 0,
{
    let n = if r > 0 { NORTH_WALL } else { 0u32 };
    let e = if c + 1 < cols { EAST_WALL } else { 0u32 };
    let s = if r + 1 < rows { SOUTH_WALL } else { 0u32 };
    let w = if c > 0 { WEST_WALL } else { 0u32 };
    let x = walled_bits(rows, cols, r, c);
    assert(x == n | e | s | w);
    assert(x & PATH_BIT == 0 && x & BUILDER_BIT == 0 && x & WALK_BIT == 0 && (x & MARKERS_MASK)
        >> MARKER_SHIFT == 0) by (bit_vector)
        requires
            x == n | e | s | w,
            n <= 1,
            e <= 2,
            s <= 4,
            w <= 8,
    ;
}

pub open spec fn sq_of(x: u32) -> CellView {
    view_of(x)
}

/// A fully walled grid holds no passage, no tree cell and no walk marks.
pub(crate) proof fn lemma_walled_grid(v: MazeView)
    requires
        v.wf(),
        v.cells == walled_grid(v.rows, v.cols),
    ensures
        tree_ok(v),
        forall|q: Point|
            v.in_bounds(q) ==> !(#[trigger] sq(v, q)).built && !sq(v, q).walk && sq(v, q).marker
                == 0 && !sq(v, q).path,
{
    assert forall|q: Point| v.in_bounds(q) implies !(#[trigger] sq(v, q)).built && !sq(
        v,
        q,
    ).walk && sq(v, q).marker == 0 && !sq(v, q).path by {
        lemma_index(q, v.rows, v.cols);
        let i = v.idx(q);
        lemma_walled_square(v.rows, v.cols, i / v.cols, i % v.cols);
    }
}

/// A fully walled grid with one cell carved into the tree is a tree of one
/// cell rooted there.
pub(crate) proof fn lemma_seed_shape(v0: MazeView, v1: MazeView, seed: Point)
    requires
        v0.wf(),
        v0.cells == walled_grid(v0.rows, v0.cols),
        is_cell(v0, seed),
        walls_only_elsewhere(v0, v1, seed),
        sq(v1, seed) == carved(sq(v0, seed), true),
    ensures
        tree_shape(v1, seed),
{
    lemma_walled_grid(v0);
    lemma_cell_bounds(v0, seed);
    assert(tree_cells(v0) =~= Set::<int>::empty()) by {
        assert forall|i: int| !tree_cells(v0).contains(i) by {
            if 0 <= i < v0.cells.len() {
                lemma_pt_back(v0, i);
                assert(!sq(v0, pt(v0, i)).built);
            }
        }
    }
    assert(open_links(v0) =~= Set::<int>::empty()) by {
        assert forall|i: int| !open_links(v0).contains(i) by {
            if 0 <= i < v0.cells.len() {
                lemma_pt_back(v0, i);
                assert(!sq(v0, pt(v0, i)).path);
            }
        }
    }
    lemma_carve_cell_shape(v0, v1, seed);
    assert forall|q: Point| v1.in_bounds(q) implies {
        let k = #[trigger] sq(v1, q);
        &&& !is_cell(v1, q) && !is_link(v1, q) ==> !k.path
        &&& is_link(v1, q) && k.path ==> sq(v1, end_a(q)).built && sq(v1, end_b(q)).built
    } by {
        assert(sq(v0, q) == sq(v0, q));
        if q != seed {
            assert(same_but_walls(sq(v0, q), sq(v1, q)));
        }
    }
    assert forall|q: Point| is_cell(v1, q) && (#[trigger] sq(v1, q)).built implies reachable(
        v1,
        seed,
        q,
    ) by {
        lemma_cell_bounds(v0, q);
        assert(sq(v0, q) == sq(v0, q));
        if q != seed {
            assert(same_but_walls(sq(v0, q), sq(v1, q)));
        }
        let r = seq![seed];
        assert(is_route(v1, r));
        assert(r[0] == seed && r.last() == q);
    }
}

impl RandomWalk {
    /// Takes `seed` into the tree of a fully walled grid and starts the first
    /// walk at the first cell outside it. With no such cell the maze is
    /// already complete and no walk starts.
    pub fn begin(maze: &mut Maze, tape: &mut Tape, seed: Point) -> (r: Option<RandomWalk>)
        requires
            old(maze)@.wf(),
            3 <= old(maze)@.rows,
            3 <= old(maze)@.cols,
            old(maze)@.cells == walled_grid(old(maze)@.rows, old(maze)@.cols),
            old(tape)@ == Seq::<Delta>::empty(),
            is_cell(old(maze)@, seed),
        ensures
            final(maze)@.wf(),
            final(maze)@.same_shape(old(maze)@),
            r matches Some(w) ==> w.inv(final(maze)@, final(tape)@),
            r matches Some(w) ==> w.origin@ == old(maze)@.cells,
            r matches Some(w) ==> w.root@ == seed,
            r is None <==> forall|q: Point| is_cell(old(maze)@, q) ==> q == seed,
            final(tape)@.len() > 0,
            r is None ==> tree_shape(final(maze)@, seed),
            r is None ==> complete(final(maze)@) && log_ok(
                old(maze)@.cells,
                final(maze)@,
                final(tape)@,
            ),
            sq(final(maze)@, seed).built,
    {
        let ghost v0 = maze@;
        let ghost origin = v0.cells;
        proof {
            lemma_walled_grid(v0);
            lemma_cell_bounds(v0, seed);
            assert(replay(origin, v0.cols, tape@) == origin);
        }
        carve_square(maze, tape, seed, true, Ghost(origin));
        let ghost v1 = maze@;
        proof {
            lemma_carve_keeps_tree(v0, v1, seed, true);
            assert forall|q: Point| is_cell(v1, q) implies !(#[trigger] sq(v1, q)).walk && sq(
                v1,
                q,
            ).marker == 0 by {
                lemma_cell_bounds(v0, q);
                assert(sq(v0, q) == sq(v0, q));
            }
            lemma_seed_shape(v0, v1, seed);
        }
        match find_start(maze, 1) {
            None => {
                proof {
                    let v1 = maze@;
                    assert forall|q: Point| is_cell(v0, q) implies q == seed by {
                        lemma_cell_bounds(v0, q);
                        assert(sq(v0, q) == sq(v0, q));
                        if q != seed {
                            assert(same_but_walls(sq(v0, q), sq(v1, q)));
                            assert(sq(v1, q).built);
                        }
                    }
                }
                None
            },
            Some(p) => {
                proof {
                    assert(p != seed);
                    assert(is_cell(v0, p));
                    assert(!(forall|q: Point| is_cell(v0, q) ==> q == seed));
                }
                begin_walk(maze, tape, p, Ghost(origin));
                proof {
                    lemma_same_flags(v1, maze@, seed);
                }
                let ghost single = seq![p];
                let w = RandomWalk {
                    prev_row_start: p.row,
                    prev: Point { row: 0, col: 0 },
                    walk: p,
                    origin: Ghost(origin),
                    path: Ghost(single),
                    root: Ghost(seed),
                };
                proof {
                    let v2 = maze@;
                    lemma_cell_bounds(v0, seed);
                    assert(sq(v1, seed).built);
                    assert forall|q: Point| is_cell(v2, q) && q.row < p.row implies (#[trigger] sq(
                        v2,
                        q,
                    )).built by {
                        assert(sq(v1, q).built);
                    }
                }
                Some(w)
            },
        }
    }
}

/// Generates a maze on `maze`'s geometry by loop-erased random walks and
/// returns the tape of every change, from the fully walled grid on, with
/// whether the maze is complete. `stop` is polled before the first change
/// and before each step of the walk; once it reads `true` the run ends
/// where it is. The walk is given at most `u64::MAX` steps.
pub fn generate_history(maze: &mut Maze, rng: &mut StdRng, stop: &AtomicBool) -> (r: (Tape, bool))
    requires
        old(maze)@.wf(),
        3 <= old(maze)@.rows,
        3 <= old(maze)@.cols,
    ensures
        final(maze)@.wf(),
        final(maze)@.same_shape(old(maze)@),
        replay(walled_grid(old(maze)@.rows, old(maze)@.cols), old(maze)@.cols, r.0@)
            == final(maze)@.cells,
        deltas_on_grid(r.0@, old(maze)@.rows, old(maze)@.cols),
        befores_ok(walled_grid(old(maze)@.rows, old(maze)@.cols), old(maze)@.cols, r.0@),
        r.0@.len() == 0 ==> final(maze)@.cells == walled_grid(old(maze)@.rows, old(maze)@.cols),
        r.1 ==> complete(final(maze)@),
        r.1 ==> spanning_tree(final(maze)@),
        old(maze)@.rows <= 4 && old(maze)@.cols <= 4 ==> r.1 || r.0@.len() == 0,
{
    let rows = maze.rows();
    let cols = maze.cols();
    let offset = maze.offset();
    *maze = Maze::new(rows, cols, offset);
    let ghost origin = maze@.cells;
    let mut tape = Tape::new();
    if stop.load(Ordering::SeqCst) {
        return (tape, false);
    }
    let n_rows = ((rows - 1) / 2) as usize;
    let n_cols = ((cols - 1) / 2) as usize;
    let seed = Point {
        row: 2 * (random_below(rng, n_rows) as i32) + 1,
        col: 2 * (random_below(rng, n_cols) as i32) + 1,
    };
    proof {
        if rows <= 4 && cols <= 4 {
            assert forall|q: Point| is_cell(maze@, q) implies q == seed by {}
        }
    }
    match RandomWalk::begin(maze, &mut tape, seed) {
        None => (tape, true),
        Some(w) => {
            let mut w = w;
            let mut order: Vec<usize> = vec![0, 1, 2, 3];
            let mut budget: u64 = u64::MAX;
            while budget > 0
                invariant
                    w.inv(maze@, tape@),
                    w.origin@ == origin,
                    origin == walled_grid(rows as int, cols as int),
                    maze@.rows == rows,
                    maze@.cols == cols,
                    maze@.offset == offset,
                    rows == old(maze)@.rows,
                    cols == old(maze)@.cols,
                    offset == old(maze)@.offset,
                    !(rows <= 4 && cols <= 4),
                decreases budget,
            {
                if stop.load(Ordering::SeqCst) {
                    return (tape, false);
                }
                shuffle(rng, &mut order);
                if !w.walk_step(maze, &mut tape, &order) {
                    return (tape, true);
                }
                budget = budget - 1;
            }
            (tape, false)
        },
    }
}

/// Generates a maze on `maze`'s geometry by loop-erased random walks,
/// without keeping the tape. Returns whether the maze is complete; `stop`
/// ends the run early, as for `generate_history`.
pub fn generate_maze(maze: &mut Maze, rng: &mut StdRng, stop: &AtomicBool) -> (done: bool)
    requires
        old(maze)@.wf(),
        3 <= old(maze)@.rows,
        3 <= old(maze)@.cols,
    ensures
        final(maze)@.wf(),
        final(maze)@.same_shape(old(maze)@),
        done ==> complete(final(maze)@),
        done ==> spanning_tree(final(maze)@),
        old(maze)@.rows <= 4 && old(maze)@.cols <= 4 ==> done || final(maze)@.cells
            == walled_grid(old(maze)@.rows, old(maze)@.cols),
{
    let (_tape, done) = generate_history(maze, rng, stop);
    done
}

/// Replaying a generation's tape onto a fresh, fully walled grid of the
/// same size gives the generated grid, square for square.
pub proof fn lemma_replay_determinism(
    generated: MazeView,
    ds: Seq<Delta>,
    fresh: MazeView,
    replayed: MazeView,
)
    requires
        replay(walled_grid(generated.rows, generated.cols), generated.cols, ds)
            == generated.cells,
        fresh.same_shape(generated),
        fresh.cells == walled_grid(fresh.rows, fresh.cols),
        replayed.cells == replay(fresh.cells, fresh.cols, ds),
    ensures
        replayed.cells == generated.cells,
{
}

} // verus!

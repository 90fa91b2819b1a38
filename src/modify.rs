//! Changes made to a finished maze: opening single squares, and a cross of
//! passages through the middle.
use vstd::prelude::*;
use crate::maze::{Maze, Point};
use crate::tape::{Tape, Delta};
use crate::wilson::{sq, carved, walls_only_elsewhere, same_but_walls, carve_square};

verus! {

/// Makes the square at `p` a passage and takes the facing wall line off
/// each neighbouring wall; nothing else changes.
pub fn build_path(maze: &mut Maze, p: Point)
    requires
        old(maze)@.wf(),
        old(maze)@.in_bounds(p),
    ensures
        walls_only_elsewhere(old(maze)@, final(maze)@, p),
        sq(final(maze)@, p) == carved(sq(old(maze)@, p), false),
{
    let mut tape = Tape::new();
    proof {
        assert(tape@ =~= Seq::<Delta>::empty());
    }
    carve_square(maze, &mut tape, p, false, Ghost(maze@.cells));
}

/// `(r, c)` lies on the cross: the middle row or the middle column, two
/// squares in from each end.
pub open spec fn on_cross(rows: int, cols: int, r: int, c: int) -> bool {
    ||| r == rows / 2 && 1 < c < cols - 2
    ||| c == cols / 2 && 1 < r < rows - 2
}

/// The squares that `add_cross` opens: those on the cross, and the square
/// right of each of them while it stays more than two squares in from the
/// edge.
pub open spec fn in_cross(rows: int, cols: int, q: Point) -> bool {
    ||| on_cross(rows, cols, q.row as int, q.col as int)
    ||| on_cross(rows, cols, q.row as int, q.col - 1) && q.col < cols - 2
}

/// Opens a cross of passages through the middle of the maze.
pub fn add_cross(maze: &mut Maze)
    requires
        old(maze)@.wf(),
    ensures
        final(maze)@.wf(),
        final(maze)@.same_shape(old(maze)@),
        forall|q: Point|
            old(maze)@.in_bounds(q) ==> (#[trigger] sq(final(maze)@, q)).path == (sq(
                old(maze)@,
                q,
            ).path || in_cross(old(maze)@.rows, old(maze)@.cols, q)),
{
    let ghost v0 = maze@;
    let rows = maze.rows();
    let cols = maze.cols();
    let mut r: i32 = 0;
    while r < rows
        invariant
            maze@.wf(),
            maze@.same_shape(v0),
            rows == v0.rows,
            cols == v0.cols,
            0 <= r <= rows,
            forall|q: Point|
                v0.in_bounds(q) ==> (#[trigger] sq(maze@, q)).path ==> (sq(v0, q).path
                    || in_cross(rows as int, cols as int, q)),
            forall|q: Point| v0.in_bounds(q) ==> sq(v0, q).path ==> (#[trigger] sq(maze@, q)).path,
            forall|q: Point|
                v0.in_bounds(q) && q.row < r && in_cross(rows as int, cols as int, q) ==> (
                #[trigger] sq(maze@, q)).path,
        decreases rows - r,
    {
        let mut c: i32 = 0;
        while c < cols
            invariant
                maze@.wf(),
                maze@.same_shape(v0),
                rows == v0.rows,
                cols == v0.cols,
                0 <= r < rows,
                0 <= c <= cols,
                forall|q: Point|
                    v0.in_bounds(q) ==> (#[trigger] sq(maze@, q)).path ==> (sq(v0, q).path
                        || in_cross(rows as int, cols as int, q)),
                forall|q: Point|
                    v0.in_bounds(q) ==> sq(v0, q).path ==> (#[trigger] sq(maze@, q)).path,
                forall|q: Point|
                    v0.in_bounds(q) && (q.row < r || (q.row == r && q.col < c)) && in_cross(
                        rows as int,
                        cols as int,
                        q,
                    ) ==> (#[trigger] sq(maze@, q)).path,
                c >= 1 && on_cross(rows as int, cols as int, r as int, c - 1) && c < cols - 2
                    ==> sq(maze@, Point { row: r, col: c }).path,
            decreases cols - c,
        {
            if (r == rows / 2 && c > 1 && c < cols - 2) || (c == cols / 2 && r > 1 && r < rows
                - 2) {
                let ghost va = maze@;
                let p = Point { row: r, col: c };
                build_path(maze, p);
                proof {
                    let vb = maze@;
                    assert forall|q: Point| v0.in_bounds(q) implies (sq(va, q).path ==> (
                    #[trigger] sq(vb, q)).path) && (sq(vb, q).path ==> sq(va, q).path || q
                        == p) by {
                        if q != p {
                            assert(same_but_walls(sq(va, q), sq(vb, q)));
                        }
                    }
                }
                if c + 1 < cols - 2 {
                    let ghost vb = maze@;
                    let beside = Point { row: r, col: c + 1 };
                    build_path(maze, beside);
                    proof {
                        let vc = maze@;
                        assert forall|q: Point| v0.in_bounds(q) implies (sq(vb, q).path ==> (
                        #[trigger] sq(vc, q)).path) && (sq(vc, q).path ==> sq(vb, q).path || q
                            == beside) by {
                            if q != beside {
                                assert(same_but_walls(sq(vb, q), sq(vc, q)));
                            }
                        }
                        assert(in_cross(rows as int, cols as int, beside));
                    }
                }
            }
            c = c + 1;
        }
        r = r + 1;
    }
}

} // verus!

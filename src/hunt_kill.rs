//! Maze generation by hunt and kill: carve a random walk into cells outside
//! the tree until it is stuck, then hunt row by row for a cell outside the
//! tree next to a tree cell, join the two and walk on from there.
use vstd::prelude::*;
use crate::cell::has_builder;
use crate::maze::{Maze, MazeView, Point};
use crate::random::{random_below, shuffle};
use crate::recursive_backtracker::{finished, lemma_all_built};
use crate::tape::Tape;
use crate::tree::{tree_shape, spanning_tree, tree_cells, all_cells, lemma_sets_finite};
use crate::wilson::{
    sq, is_cell, stepped, complete, tree_ok, log_ok, carve_square, step_from,
    between_exec, lemma_between, lemma_cell_bounds, lemma_walled_grid, lemma_seed_shape,
    lemma_carve_keeps_tree, lemma_arrival, is_cell_at, same_but_walls,
};
use crate::tree::{lemma_attach_shape, lemma_link_ends};
use rand::rngs::StdRng;
use std::sync::atomic::{AtomicBool, Ordering};

verus! {

/// A cell outside the tree with a tree cell one step from it in direction `d`.
pub open spec fn joinable(v: MazeView, p: Point, d: int) -> bool {
    &&& is_cell(v, p)
    &&& !sq(v, p).built
    &&& 0 <= d < 4
    &&& is_cell(v, stepped(p, d))
    &&& sq(v, stepped(p, d)).built
}

/// Scans rows `from`, `from + 2`, ... for the first cell outside the tree;
/// returns the first such cell next to a tree cell, with the direction to
/// it, and the row of the first cell outside the tree.
fn hunt(maze: &Maze, from: i32) -> (r: (Option<(Point, usize)>, i32))
    requires
        maze@.wf(),
        3 <= maze@.rows,
        3 <= maze@.cols,
        1 <= from <= maze@.rows,
        from % 2 == 1,
        forall|q: Point| is_cell(maze@, q) && q.row < from ==> (#[trigger] sq(maze@, q)).built,
    ensures
        1 <= r.1 <= maze@.rows,
        r.1 % 2 == 1,
        forall|q: Point| is_cell(maze@, q) && q.row < r.1 ==> (#[trigger] sq(maze@, q)).built,
        r.0 matches Some(f) ==> joinable(maze@, f.0, f.1 as int) && f.1 < 4,
        r.0 is None ==> forall|q: Point, d: int|
            is_cell(maze@, q) && !sq(maze@, q).built && 0 <= d < 4 && is_cell(
                maze@,
                stepped(q, d),
            ) ==> !(#[trigger] sq(maze@, stepped(q, d))).built,
{
    let ghost v = maze@;
    proof {
        crate::maze::lemma_dims(v);
    }
    let mut top = from;
    let mut seen_open = false;
    let mut r: i32 = from;
    while r <= maze.rows() - 2
        invariant
            maze@ == v,
            v.wf(),
            3 <= v.rows,
            3 <= v.cols,
            v.rows <= crate::maze::MAX_SQUARES,
            v.cols <= crate::maze::MAX_SQUARES,
            1 <= from <= r,
            r <= v.rows,
            r % 2 == 1,
            1 <= top <= v.rows,
            top % 2 == 1,
            top <= r,
            forall|q: Point| is_cell(v, q) && q.row < top ==> (#[trigger] sq(v, q)).built,
            !seen_open ==> top == from && forall|q: Point|
                is_cell(v, q) && q.row < r ==> (#[trigger] sq(v, q)).built,
            forall|q: Point, d: int|
                is_cell(v, q) && !sq(v, q).built && q.row < r && 0 <= d < 4 && is_cell(
                    v,
                    stepped(q, d),
                ) ==> !(#[trigger] sq(v, stepped(q, d))).built,
        decreases v.rows - r,
    {
        let mut c: i32 = 1;
        while c <= maze.cols() - 2
            invariant
                maze@ == v,
                v.wf(),
                3 <= v.rows,
                3 <= v.cols,
                v.rows <= crate::maze::MAX_SQUARES,
                v.cols <= crate::maze::MAX_SQUARES,
                1 <= from <= r <= v.rows - 2,
                r % 2 == 1,
                c % 2 == 1,
                1 <= c <= v.cols,
                1 <= top <= v.rows,
                top % 2 == 1,
                top <= r,
                forall|q: Point| is_cell(v, q) && q.row < top ==> (#[trigger] sq(v, q)).built,
                !seen_open ==> top == from && forall|q: Point|
                    is_cell(v, q) && (q.row < r || (q.row == r && q.col < c)) ==> (#[trigger] sq(
                        v,
                        q,
                    )).built,
                forall|q: Point, d: int|
                    is_cell(v, q) && !sq(v, q).built && (q.row < r || (q.row == r && q.col < c))
                        && 0 <= d < 4 && is_cell(v, stepped(q, d)) ==> !(#[trigger] sq(
                        v,
                        stepped(q, d),
                    )).built,
            decreases v.cols - c,
        {
            let p = Point { row: r, col: c };
            proof {
                lemma_cell_bounds(v, p);
            }
            if !has_builder(maze.get(p)) {
                if !seen_open {
                    top = r;
                    seen_open = true;
                }
                let mut d: usize = 0;
                while d < 4
                    invariant
                        maze@ == v,
                        v.wf(),
                        is_cell(v, p),
                        p.row + 2 <= i32::MAX,
                        p.col + 2 <= i32::MAX,
                        1 <= top <= v.rows,
                        top % 2 == 1,
                        !sq(v, p).built,
                        forall|q: Point| is_cell(v, q) && q.row < top ==> (#[trigger] sq(v, q)).built,
                        d <= 4,
                        forall|e: int|
                            0 <= e < d && is_cell(v, stepped(p, e)) ==> !(#[trigger] sq(
                                v,
                                stepped(p, e),
                            )).built,
                    decreases 4 - d,
                {
                    let n = step_from(p, d);
                    if is_cell_at(maze, n) {
                        proof {
                            lemma_cell_bounds(v, n);
                        }
                        if has_builder(maze.get(n)) {
                            return (Some((p, d)), top);
                        }
                    }
                    d = d + 1;
                }
            }
            c = c + 2;
        }
        r = r + 2;
    }
    (None, top)
}

/// Generates a maze on `maze`'s geometry by hunt and kill from a random
/// cell. `stop` is polled before the first cell is carved and before each
/// further one; once it reads `true` the run ends where it is and `false`
/// is returned. Otherwise the result is complete and a spanning tree.
pub fn generate_maze(maze: &mut Maze, rng: &mut StdRng, stop: &AtomicBool) -> (done: bool)
    requires
        old(maze)@.wf(),
        3 <= old(maze)@.rows,
        3 <= old(maze)@.cols,
    ensures
        final(maze)@.wf(),
        final(maze)@.same_shape(old(maze)@),
        done ==> complete(final(maze)@),
        done ==> spanning_tree(final(maze)@),
{
    let rows = maze.rows();
    let cols = maze.cols();
    let offset = maze.offset();
    *maze = Maze::new(rows, cols, offset);
    let ghost v0 = maze@;
    let ghost origin = v0.cells;
    let mut tape = Tape::new();
    if stop.load(Ordering::SeqCst) {
        return false;
    }
    let n_rows = ((rows - 1) / 2) as usize;
    let n_cols = ((cols - 1) / 2) as usize;
    let start = Point {
        row: 2 * (random_below(rng, n_rows) as i32) + 1,
        col: 2 * (random_below(rng, n_cols) as i32) + 1,
    };
    proof {
        lemma_walled_grid(v0);
        lemma_cell_bounds(v0, start);
        assert(tape@ =~= Seq::<crate::tape::Delta>::empty());
    }
    carve_square(maze, &mut tape, start, true, Ghost(origin));
    proof {
        lemma_carve_keeps_tree(v0, maze@, start, true);
        lemma_seed_shape(v0, maze@, start);
    }
    let mut cur = start;
    let mut top: i32 = 1;
    let mut order: Vec<usize> = vec![0, 1, 2, 3];
    loop
        invariant
            maze@.wf(),
            maze@.rows == rows,
            maze@.cols == cols,
            maze@.offset == offset,
            rows == old(maze)@.rows,
            cols == old(maze)@.cols,
            offset == old(maze)@.offset,
            3 <= rows,
            3 <= cols,
            log_ok(origin, maze@, tape@),
            tree_ok(maze@),
            tree_shape(maze@, start),
            is_cell(maze@, cur),
            sq(maze@, cur).built,
            is_cell(maze@, start),
            sq(maze@, start).built,
            1 <= top <= rows,
            top % 2 == 1,
            forall|q: Point| is_cell(maze@, q) && q.row < top ==> (#[trigger] sq(maze@, q)).built,
        decreases all_cells(maze@).len() - tree_cells(maze@).len(),
    {
        if stop.load(Ordering::SeqCst) {
            return false;
        }
        let ghost v = maze@;
        proof {
            lemma_cell_bounds(v, cur);
            lemma_sets_finite(v);
            vstd::set_lib::lemma_len_subset(tree_cells(v), all_cells(v));
        }
        shuffle(rng, &mut order);
        let mut found: Option<usize> = None;
        let mut i: usize = 0;
        while i < order.len()
            invariant
                maze@ == v,
                v.wf(),
                is_cell(v, cur),
                cur.row + 2 <= i32::MAX,
                cur.col + 2 <= i32::MAX,
                i <= order@.len(),
                found matches Some(d) ==> d < 4 && is_cell(v, stepped(cur, d as int)) && !sq(
                    v,
                    stepped(cur, d as int),
                ).built,
            decreases order@.len() - i,
        {
            let d = order[i];
            if found.is_none() && d < 4 {
                let b = step_from(cur, d);
                if is_cell_at(maze, b) {
                    proof {
                        lemma_cell_bounds(v, b);
                    }
                    if !has_builder(maze.get(b)) {
                        found = Some(d);
                    }
                }
            }
            i = i + 1;
        }
        let (cell, link, tree_cell) = match found {
            Some(d) => {
                let branch = step_from(cur, d);
                proof {
                    lemma_cell_bounds(v, branch);
                    lemma_between(v, cur, d as int);
                }
                (branch, between_exec(cur, branch), cur)
            },
            None => {
                let (hit, new_top) = hunt(maze, top);
                top = new_top;
                match hit {
                    None => {
                        proof {
                            assert forall|p: Point| is_cell(v, p) && (#[trigger] sq(
                                v,
                                p,
                            )).built implies finished(v, p) by {
                                assert forall|e: int|
                                    0 <= e < 4 && is_cell(v, stepped(p, e)) implies #[trigger] sq(
                                    v,
                                    stepped(p, e),
                                ).built by {
                                    let n = stepped(p, e);
                                    lemma_cell_bounds(v, p);
                                    lemma_cell_bounds(v, n);
                                    lemma_arrival(p, e);
                                    let back = ((e + 2) % 4);
                                    assert(stepped(n, back) == p);
                                    if !sq(v, n).built {
                                        assert(!sq(v, stepped(n, back)).built);
                                    }
                                }
                            }
                            assert forall|q: Point| is_cell(v, q) implies (#[trigger] sq(
                                v,
                                q,
                            )).built by {
                                lemma_all_built(v, start, q);
                            }
                        }
                        return true;
                    },
                    Some((p, d)) => {
                        let n = step_from(p, d);
                        proof {
                            lemma_cell_bounds(v, p);
                            lemma_cell_bounds(v, n);
                            lemma_between(v, p, d as int);
                        }
                        (p, between_exec(p, n), n)
                    },
                }
            },
        };
        proof {
            lemma_cell_bounds(v, cell);
            lemma_link_ends(v, link);
        }
        carve_square(maze, &mut tape, cell, true, Ghost(origin));
        let ghost v1 = maze@;
        carve_square(maze, &mut tape, link, false, Ghost(origin));
        proof {
            let v2 = maze@;
            lemma_carve_keeps_tree(v, v1, cell, true);
            lemma_carve_keeps_tree(v1, v2, link, false);
            lemma_attach_shape(v, v1, v2, cell, link, tree_cell, start);
            assert(same_but_walls(sq(v1, cell), sq(v2, cell)));
            assert forall|q: Point| is_cell(v2, q) && q.row < top implies (#[trigger] sq(
                v2,
                q,
            )).built by {
                lemma_cell_bounds(v, q);
                if q != cell {
                    assert(sq(v, q).built);
                    assert(same_but_walls(sq(v, q), sq(v1, q)));
                    assert(same_but_walls(sq(v1, q), sq(v2, q)));
                }
            }
            assert(sq(v, start) == sq(v, start));
            if start != cell {
                assert(same_but_walls(sq(v, start), sq(v1, start)));
                assert(same_but_walls(sq(v1, start), sq(v2, start)));
            }
            lemma_sets_finite(v2);
            vstd::set_lib::lemma_len_subset(tree_cells(v2), all_cells(v2));
            assert(all_cells(v2) =~= all_cells(v));
        }
        cur = cell;
    }
}

} // verus!

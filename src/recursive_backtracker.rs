//! Maze generation by a randomized depth-first search that carves as it
//! goes and backs up along the arrival markers it leaves.
use vstd::prelude::*;
use crate::cell::{has_builder, marker, set_marker};
use crate::maze::{Maze, MazeView, Point};
use crate::random::{random_below, shuffle};
use crate::tape::Tape;
use crate::tree::{
    tree_shape, spanning_tree, tree_cells, all_cells, lemma_sets_finite, lemma_attach_shape,
    lemma_same_flags, lemma_carve_cell_shape, lemma_link_ends,
};
use crate::wilson::{
    sq, is_cell, stepped, arrival_marker, complete, log_ok, same_but_walls, carve_square, put,
    step_from, between_exec, lemma_between, lemma_cell_bounds, lemma_walled_grid,
    lemma_seed_shape, lemma_arrival, lemma_at_update, is_cell_at,
};
use rand::rngs::StdRng;

verus! {

/// The search stack, first cell first: distinct tree cells, each but the
/// first marked with the way back to the cell before it.
pub open spec fn stack_ok(v: MazeView, stack: Seq<Point>) -> bool {
    &&& stack.len() >= 1
    &&& stack.no_duplicates()
    &&& forall|i: int|
        0 <= i < stack.len() ==> is_cell(v, #[trigger] stack[i]) && sq(v, stack[i]).built
    &&& sq(v, stack[0]).marker == 0
    &&& forall|i: int|
        0 < i < stack.len() ==> {
            let m = sq(v, #[trigger] stack[i]).marker;
            &&& 1 <= m <= 4
            &&& stepped(stack[i], m - 1) == stack[i - 1]
        }
}

/// Every cell next to `q` is in the tree.
pub open spec fn finished(v: MazeView, q: Point) -> bool {
    forall|d: int| 0 <= d < 4 && is_cell(v, stepped(q, d)) ==> #[trigger] sq(v, stepped(q, d)).built
}

/// No square carries walk marks; tree cells are passages and other cells
/// are not; a tree cell off the stack has no marker and no neighbour
/// outside the tree.
pub open spec fn search_ok(v: MazeView, stack: Seq<Point>) -> bool {
    forall|q: Point|
        v.in_bounds(q) ==> {
            let c = #[trigger] sq(v, q);
            &&& !c.walk
            &&& !is_cell(v, q) ==> c.marker == 0
            &&& is_cell(v, q) && c.built ==> c.path
            &&& is_cell(v, q) && !c.built ==> !c.path && c.marker == 0
            &&& is_cell(v, q) && c.built && !stack.contains(q) ==> c.marker == 0 && finished(v, q)
        }
}

/// When every tree cell has its neighbours in the tree, and `a` is in the
/// tree, every cell is.
pub(crate) proof fn lemma_all_built(v: MazeView, a: Point, q: Point)
    requires
        v.wf(),
        is_cell(v, a),
        sq(v, a).built,
        is_cell(v, q),
        forall|p: Point| is_cell(v, p) && (#[trigger] sq(v, p)).built ==> finished(v, p),
    ensures
        sq(v, q).built,
    decreases (if a.row < q.row {
        q.row - a.row
    } else {
        a.row - q.row
    }) + (if a.col < q.col {
        q.col - a.col
    } else {
        a.col - q.col
    }),
{
    crate::maze::lemma_dims(v);
    if a.row < q.row {
        assert(finished(v, a));
        assert(sq(v, stepped(a, 2)).built);
        lemma_all_built(v, stepped(a, 2), q);
    } else if a.row > q.row {
        assert(finished(v, a));
        assert(sq(v, stepped(a, 0)).built);
        lemma_all_built(v, stepped(a, 0), q);
    } else if a.col < q.col {
        assert(finished(v, a));
        assert(sq(v, stepped(a, 1)).built);
        lemma_all_built(v, stepped(a, 1), q);
    } else if a.col > q.col {
        assert(finished(v, a));
        assert(sq(v, stepped(a, 3)).built);
        lemma_all_built(v, stepped(a, 3), q);
    } else {
        assert(a == q);
    }
}

/// A permutation of the four directions tried in full without finding a
/// cell outside the tree leaves `cur` with no such neighbour.
proof fn lemma_dead_end(v: MazeView, cur: Point, order: Seq<usize>)
    requires
        order.to_multiset() == seq![0usize, 1, 2, 3].to_multiset(),
        forall|j: int|
            0 <= j < order.len() && #[trigger] order[j] < 4 ==> !(is_cell(
                v,
                stepped(cur, order[j] as int),
            ) && !sq(v, stepped(cur, order[j] as int)).built),
    ensures
        finished(v, cur),
{
    let four = seq![0usize, 1, 2, 3];
    order.to_multiset_ensures();
    four.to_multiset_ensures();
    assert forall|e: int| 0 <= e < 4 && is_cell(v, stepped(cur, e)) implies #[trigger] sq(
        v,
        stepped(cur, e),
    ).built by {
        assert(four[e] == e as usize);
        assert(four.contains(e as usize));
        assert(four.to_multiset().count(e as usize) > 0);
        assert(order.to_multiset().count(e as usize) > 0);
        assert(order.contains(e as usize));
        let j = choose|j: int| 0 <= j < order.len() && order[j] == e as usize;
        assert(order[j] < 4);
    }
}

/// With the stack down to its first cell and that cell finished, every
/// cell is in the tree and no square carries marks.
proof fn lemma_search_done(v: MazeView, stack: Seq<Point>, start: Point)
    requires
        v.wf(),
        stack_ok(v, stack),
        search_ok(v, stack),
        stack[0] == start,
        sq(v, stack.last()).marker == 0,
        finished(v, stack.last()),
    ensures
        complete(v),
{
    assert(stack.len() == 1) by {
        if stack.len() > 1 {
            let t = stack.len() - 1;
            assert(sq(v, stack[t]).marker >= 1);
        }
    }
    lemma_cell_bounds(v, start);
    assert forall|p: Point| is_cell(v, p) && (#[trigger] sq(v, p)).built implies finished(
        v,
        p,
    ) by {
        lemma_cell_bounds(v, p);
        if stack.contains(p) {
            let t = choose|t: int| 0 <= t < stack.len() && stack[t] == p;
            assert(t == 0);
        }
    }
    assert forall|q: Point| is_cell(v, q) implies (#[trigger] sq(v, q)).built by {
        lemma_all_built(v, start, q);
    }
    assert forall|q: Point| v.in_bounds(q) implies {
        let c = #[trigger] sq(v, q);
        &&& !is_cell(v, q) ==> !c.walk && c.marker == 0
        &&& is_cell(v, q) && c.built ==> c.path && !c.walk && c.marker == 0
        &&& is_cell(v, q) && !c.built ==> !c.path
    } by {
        if is_cell(v, q) && stack.contains(q) {
            let t = choose|t: int| 0 <= t < stack.len() && stack[t] == q;
            assert(t == 0);
        }
    }
}

/// After digging from `cur` to `branch` through `link`, the stack grown by
/// `branch` and the search invariant hold.
proof fn lemma_dig_keeps_search(
    v: MazeView,
    v3: MazeView,
    stack: Seq<Point>,
    cur: Point,
    branch: Point,
    link: Point,
    d: int,
)
    requires
        v.wf(),
        v3.wf(),
        v3.same_shape(v),
        stack_ok(v, stack),
        search_ok(v, stack),
        cur == stack.last(),
        0 <= d < 4,
        branch == stepped(cur, d),
        is_cell(v, branch),
        !sq(v, branch).built,
        v.in_bounds(link),
        !is_cell(v, link),
        forall|q: Point|
            v.in_bounds(q) && q != branch && q != link ==> same_but_walls(
                sq(v, q),
                #[trigger] sq(v3, q),
            ),
        sq(v3, branch).built,
        sq(v3, branch).path,
        !sq(v3, branch).walk,
        sq(v3, branch).marker == arrival_marker(d),
        stepped(branch, arrival_marker(d) - 1) == cur,
        1 <= arrival_marker(d) <= 4,
        !sq(v3, link).walk,
        sq(v3, link).marker == 0,
    ensures
        stack_ok(v3, stack.push(branch)),
        search_ok(v3, stack.push(branch)),
{
    let ns = stack.push(branch);
    assert(ns[ns.len() - 1] == branch);
    assert(ns.contains(branch));
    assert(!stack.contains(branch)) by {
        if stack.contains(branch) {
            let t = choose|t: int| 0 <= t < stack.len() && stack[t] == branch;
            assert(sq(v, stack[t]).built);
        }
    }
    assert(ns.no_duplicates()) by {
        assert forall|a: int, b: int| 0 <= a < b < ns.len() implies ns[a] != ns[b] by {
            if b == stack.len() {
                assert(ns[a] == stack[a]);
            } else {
                assert(ns[a] == stack[a] && ns[b] == stack[b]);
            }
        }
    }
    assert forall|i: int| 0 <= i < ns.len() implies is_cell(v3, #[trigger] ns[i]) && sq(
        v3,
        ns[i],
    ).built by {
        if i < stack.len() {
            assert(ns[i] == stack[i]);
            lemma_cell_bounds(v, stack[i]);
            assert(sq(v, stack[i]).built);
        }
    }
    assert(ns[0] == stack[0]);
    lemma_cell_bounds(v, stack[0]);
    assert forall|i: int| 0 < i < ns.len() implies {
        let m = sq(v3, #[trigger] ns[i]).marker;
        &&& 1 <= m <= 4
        &&& stepped(ns[i], m - 1) == ns[i - 1]
    } by {
        if i < stack.len() {
            assert(ns[i] == stack[i]);
            assert(ns[i - 1] == stack[i - 1]);
            lemma_cell_bounds(v, stack[i]);
        } else {
            assert(ns[i - 1] == cur);
        }
    }
    assert forall|q: Point| v3.in_bounds(q) implies {
        let c = #[trigger] sq(v3, q);
        &&& !c.walk
        &&& !is_cell(v3, q) ==> c.marker == 0
        &&& is_cell(v3, q) && c.built ==> c.path
        &&& is_cell(v3, q) && !c.built ==> !c.path && c.marker == 0
        &&& is_cell(v3, q) && c.built && !ns.contains(q) ==> c.marker == 0 && finished(v3, q)
    } by {
        assert(sq(v, q) == sq(v, q));
        if is_cell(v3, q) && sq(v3, q).built && !ns.contains(q) {
            assert(q != branch);
            assert(!stack.contains(q)) by {
                if stack.contains(q) {
                    let t = choose|t: int| 0 <= t < stack.len() && stack[t] == q;
                    assert(ns[t] == q);
                }
            }
            assert(finished(v, q));
            assert forall|e: int| 0 <= e < 4 && is_cell(v3, stepped(q, e)) implies #[trigger] sq(
                v3,
                stepped(q, e),
            ).built by {
                let n = stepped(q, e);
                lemma_cell_bounds(v, n);
                assert(sq(v, n).built || n == branch);
            }
        }
    }
}

/// Digs from `cur` to the neighbouring cell in direction `d`, outside the
/// tree: carves it and the link between, and marks the way back.
#[verifier::rlimit(80)]
fn dig(
    maze: &mut Maze,
    tape: &mut Tape,
    cur: Point,
    d: usize,
    Ghost(origin): Ghost<Seq<u32>>,
    Ghost(stack): Ghost<Seq<Point>>,
    Ghost(start): Ghost<Point>,
) -> (branch: Point)
    requires
        old(maze)@.wf(),
        log_ok(origin, old(maze)@, old(tape)@),
        tree_shape(old(maze)@, start),
        stack_ok(old(maze)@, stack),
        search_ok(old(maze)@, stack),
        cur == stack.last(),
        d < 4,
        is_cell(old(maze)@, stepped(cur, d as int)),
        !sq(old(maze)@, stepped(cur, d as int)).built,
    ensures
        branch == stepped(cur, d as int),
        final(maze)@.wf(),
        final(maze)@.same_shape(old(maze)@),
        log_ok(origin, final(maze)@, final(tape)@),
        tree_shape(final(maze)@, start),
        stack_ok(final(maze)@, stack.push(branch)),
        search_ok(final(maze)@, stack.push(branch)),
        tree_cells(final(maze)@).len() == tree_cells(old(maze)@).len() + 1,
        all_cells(final(maze)@) == all_cells(old(maze)@),
{
    let ghost v = maze@;
    proof {
        assert(stack[stack.len() - 1] == cur);
        lemma_cell_bounds(v, cur);
    }
    let branch = step_from(cur, d);
    proof {
        lemma_cell_bounds(v, branch);
        lemma_between(v, cur, d as int);
    }
    let link = between_exec(cur, branch);
    carve_square(maze, tape, branch, true, Ghost(origin));
    let ghost v1 = maze@;
    proof {
        lemma_link_ends(v, link);
    }
    carve_square(maze, tape, link, false, Ghost(origin));
    let ghost v2 = maze@;
    proof {
        lemma_attach_shape(v, v1, v2, branch, link, cur, start);
        lemma_arrival(cur, d as int);
    }
    let c = maze.get(branch);
    let x = set_marker(c, ((d + 2) % 4 + 1) as u32);
    put(maze, tape, branch, x, 1, Ghost(origin));
    proof {
        let v3 = maze@;
        lemma_at_update(v2, branch, x);
        assert forall|q: Point| v2.in_bounds(q) implies (#[trigger] sq(v3, q)).path == sq(
            v2,
            q,
        ).path && sq(v3, q).built == sq(v2, q).built by {
            if q != branch {
                assert(v3.at(q) == v2.at(q));
            }
        }
        lemma_same_flags(v2, v3, start);
        lemma_carve_cell_shape(v, v1, branch);
        lemma_sets_finite(v);
        assert(tree_cells(v3) =~= tree_cells(v1)) by {
            assert forall|k: int| tree_cells(v3).contains(k) <==> tree_cells(v1).contains(k) by {
                if 0 <= k < v2.cells.len() {
                    crate::tree::lemma_pt_back(v2, k);
                    let q = crate::tree::pt(v2, k);
                    assert(sq(v3, q).built == sq(v2, q).built);
                    if q != link {
                        assert(same_but_walls(sq(v1, q), sq(v2, q)));
                    } else {
                        assert(sq(v1, q) == sq(v1, q));
                    }
                }
            }
        }
        assert(all_cells(v3) =~= all_cells(v));
        assert forall|q: Point| v.in_bounds(q) && q != branch && q != link implies same_but_walls(
            sq(v, q),
            #[trigger] sq(v3, q),
        ) by {
            assert(same_but_walls(sq(v, q), sq(v1, q)));
            assert(same_but_walls(sq(v1, q), sq(v2, q)));
            assert(v3.at(q) == v2.at(q));
        }
        assert(same_but_walls(sq(v1, branch), sq(v2, branch)));
        assert(same_but_walls(sq(v, link), sq(v1, link)));
        lemma_dig_keeps_search(v, v3, stack, cur, branch, link, d as int);
    }
    branch
}

/// Backs up from `cur`, whose marker `m` names the way back: clears the
/// marker and returns the cell before it.
#[verifier::rlimit(80)]
fn back_up(
    maze: &mut Maze,
    tape: &mut Tape,
    cur: Point,
    m: u32,
    Ghost(origin): Ghost<Seq<u32>>,
    Ghost(stack): Ghost<Seq<Point>>,
    Ghost(start): Ghost<Point>,
) -> (prev: Point)
    requires
        old(maze)@.wf(),
        log_ok(origin, old(maze)@, old(tape)@),
        tree_shape(old(maze)@, start),
        stack_ok(old(maze)@, stack),
        search_ok(old(maze)@, stack),
        stack[0] == start,
        cur == stack.last(),
        finished(old(maze)@, cur),
        m == sq(old(maze)@, cur).marker,
        m != 0,
    ensures
        prev == stack.drop_last().last(),
        stack.len() > 1,
        final(maze)@.wf(),
        final(maze)@.same_shape(old(maze)@),
        log_ok(origin, final(maze)@, final(tape)@),
        tree_shape(final(maze)@, start),
        stack_ok(final(maze)@, stack.drop_last()),
        search_ok(final(maze)@, stack.drop_last()),
        tree_cells(final(maze)@) == tree_cells(old(maze)@),
        all_cells(final(maze)@) == all_cells(old(maze)@),
{
    let ghost v = maze@;
    let ghost t = stack.len() - 1;
    proof {
        assert(stack[t] == cur);
        assert(stack.len() > 1);
        lemma_cell_bounds(v, cur);
        lemma_cell_bounds(v, stack[t - 1]);
    }
    let c = maze.get(cur);
    let x = set_marker(c, 0);
    put(maze, tape, cur, x, 1, Ghost(origin));
    proof {
        let v3 = maze@;
        lemma_at_update(v, cur, x);
        assert forall|q: Point| v.in_bounds(q) implies (#[trigger] sq(v3, q)).path == sq(
            v,
            q,
        ).path && sq(v3, q).built == sq(v, q).built by {
            if q != cur {
                assert(v3.at(q) == v.at(q));
            }
        }
        lemma_same_flags(v, v3, start);
        assert(tree_cells(v3) =~= tree_cells(v)) by {
            assert forall|k: int| tree_cells(v3).contains(k) <==> tree_cells(v).contains(k) by {
                if 0 <= k < v.cells.len() {
                    crate::tree::lemma_pt_back(v, k);
                    let q = crate::tree::pt(v, k);
                    assert(sq(v3, q).built == sq(v, q).built);
                }
            }
        }
        assert(all_cells(v3) =~= all_cells(v));
        let ns = stack.drop_last();
        assert forall|i: int| 0 <= i < ns.len() implies is_cell(v3, #[trigger] ns[i]) && sq(
            v3,
            ns[i],
        ).built by {
            assert(ns[i] == stack[i]);
            assert(stack[i] != cur);
            lemma_cell_bounds(v, stack[i]);
            assert(v3.at(stack[i]) == v.at(stack[i]));
        }
        assert(ns[0] == stack[0]);
        assert(stack[0] != cur);
        lemma_cell_bounds(v, stack[0]);
        assert(v3.at(stack[0]) == v.at(stack[0]));
        assert forall|i: int| 0 < i < ns.len() implies {
            let mm = sq(v3, #[trigger] ns[i]).marker;
            &&& 1 <= mm <= 4
            &&& stepped(ns[i], mm - 1) == ns[i - 1]
        } by {
            assert(ns[i] == stack[i]);
            assert(ns[i - 1] == stack[i - 1]);
            assert(stack[i] != cur);
            lemma_cell_bounds(v, stack[i]);
            assert(v3.at(stack[i]) == v.at(stack[i]));
        }
        assert(ns.no_duplicates()) by {
            assert forall|a: int, b: int| 0 <= a < b < ns.len() implies ns[a] != ns[b] by {
                assert(ns[a] == stack[a] && ns[b] == stack[b]);
            }
        }
        assert forall|q: Point| v3.in_bounds(q) implies {
            let k = #[trigger] sq(v3, q);
            &&& !k.walk
            &&& !is_cell(v3, q) ==> k.marker == 0
            &&& is_cell(v3, q) && k.built ==> k.path
            &&& is_cell(v3, q) && !k.built ==> !k.path && k.marker == 0
            &&& is_cell(v3, q) && k.built && !ns.contains(q) ==> k.marker == 0 && finished(v3, q)
        } by {
            assert(sq(v, q) == sq(v, q));
            if q != cur {
                assert(v3.at(q) == v.at(q));
            }
            if is_cell(v3, q) && sq(v3, q).built && !ns.contains(q) && q != cur {
                assert(!stack.contains(q)) by {
                    if stack.contains(q) {
                        let u = choose|u: int| 0 <= u < stack.len() && stack[u] == q;
                        assert(ns[u] == q);
                    }
                }
            }
            if is_cell(v3, q) && sq(v3, q).built && !ns.contains(q) {
                assert forall|e: int| 0 <= e < 4 && is_cell(v3, stepped(q, e)) implies #[trigger] sq(
                    v3,
                    stepped(q, e),
                ).built by {
                    let n = stepped(q, e);
                    lemma_cell_bounds(v, n);
                    if q == cur {
                        assert(sq(v, stepped(cur, e)).built);
                    } else {
                        assert(finished(v, q));
                        assert(sq(v, n).built);
                    }
                    if n != cur {
                        assert(v3.at(n) == v.at(n));
                    }
                }
            }
        }
    }
    step_from(cur, (m - 1) as usize)
}

/// Generates a maze on `maze`'s geometry by randomized depth-first search
/// from a random cell. The result is complete and a spanning tree.
pub fn generate_maze(maze: &mut Maze, rng: &mut StdRng)
    requires
        old(maze)@.wf(),
        3 <= old(maze)@.rows,
        3 <= old(maze)@.cols,
    ensures
        final(maze)@.wf(),
        final(maze)@.same_shape(old(maze)@),
        complete(final(maze)@),
        spanning_tree(final(maze)@),
{
    let rows = maze.rows();
    let cols = maze.cols();
    let offset = maze.offset();
    *maze = Maze::new(rows, cols, offset);
    let ghost v0 = maze@;
    let ghost origin = v0.cells;
    let mut tape = Tape::new();
    let n_rows = ((rows - 1) / 2) as usize;
    let n_cols = ((cols - 1) / 2) as usize;
    let start = Point {
        row: 2 * (random_below(rng, n_rows) as i32) + 1,
        col: 2 * (random_below(rng, n_cols) as i32) + 1,
    };
    proof {
        lemma_walled_grid(v0);
        lemma_cell_bounds(v0, start);
        assert(tape@ =~= Seq::<crate::tape::Delta>::empty());
    }
    carve_square(maze, &mut tape, start, true, Ghost(origin));
    let ghost mut stack: Seq<Point> = seq![start];
    proof {
        let v1 = maze@;
        lemma_seed_shape(v0, v1, start);
        assert forall|q: Point| v1.in_bounds(q) implies {
            let c = #[trigger] sq(v1, q);
            &&& !c.walk
            &&& !is_cell(v1, q) ==> c.marker == 0
            &&& is_cell(v1, q) && c.built ==> c.path
            &&& is_cell(v1, q) && !c.built ==> !c.path && c.marker == 0
            &&& is_cell(v1, q) && c.built && !stack.contains(q) ==> c.marker == 0 && finished(
                v1,
                q,
            )
        } by {
            assert(sq(v0, q) == sq(v0, q));
            if q != start {
                assert(same_but_walls(sq(v0, q), sq(v1, q)));
            }
            assert(stack[0] == start);
        }
        assert(stack.no_duplicates());
    }
    let mut cur = start;
    let mut order: Vec<usize> = vec![0, 1, 2, 3];
    loop
        invariant
            maze@.wf(),
            maze@.rows == rows,
            maze@.cols == cols,
            maze@.offset == offset,
            rows == old(maze)@.rows,
            cols == old(maze)@.cols,
            offset == old(maze)@.offset,
            3 <= rows,
            3 <= cols,
            log_ok(origin, maze@, tape@),
            tree_shape(maze@, start),
            stack_ok(maze@, stack),
            search_ok(maze@, stack),
            stack[0] == start,
            cur == stack.last(),
            order@.to_multiset() == seq![0usize, 1, 2, 3].to_multiset(),
        decreases all_cells(maze@).len() - tree_cells(maze@).len(), stack.len(),
    {
        let ghost v = maze@;
        proof {
            lemma_cell_bounds(v, cur);
            assert(stack[stack.len() - 1] == cur);
            lemma_sets_finite(v);
            vstd::set_lib::lemma_len_subset(tree_cells(v), all_cells(v));
        }
        shuffle(rng, &mut order);
        let mut found: Option<usize> = None;
        let mut i: usize = 0;
        while i < order.len()
            invariant
                maze@ == v,
                v.wf(),
                is_cell(v, cur),
                cur.row + 2 <= i32::MAX,
                cur.col + 2 <= i32::MAX,
                i <= order@.len(),
                found is None ==> forall|j: int|
                    0 <= j < i && #[trigger] order@[j] < 4 ==> !(is_cell(
                        v,
                        stepped(cur, order@[j] as int),
                    ) && !sq(v, stepped(cur, order@[j] as int)).built),
                found matches Some(d) ==> d < 4 && is_cell(v, stepped(cur, d as int)) && !sq(
                    v,
                    stepped(cur, d as int),
                ).built,
            decreases order@.len() - i,
        {
            let d = order[i];
            if found.is_none() && d < 4 {
                let b = step_from(cur, d);
                if is_cell_at(maze, b) {
                    proof {
                        lemma_cell_bounds(v, b);
                    }
                    if !has_builder(maze.get(b)) {
                        found = Some(d);
                    }
                }
            }
            i = i + 1;
        }
        match found {
            Some(d) => {
                let branch = dig(maze, &mut tape, cur, d, Ghost(origin), Ghost(stack), Ghost(start));
                proof {
                    stack = stack.push(branch);
                    lemma_sets_finite(maze@);
                    vstd::set_lib::lemma_len_subset(tree_cells(maze@), all_cells(maze@));
                }
                cur = branch;
            },
            None => {
                proof {
                    lemma_dead_end(v, cur, order@);
                }
                let m = marker(maze.get(cur));
                if m == 0 {
                    proof {
                        lemma_search_done(v, stack, start);
                    }
                    return ;
                }
                cur = back_up(maze, &mut tape, cur, m, Ghost(origin), Ghost(stack), Ghost(start));
                proof {
                    stack = stack.drop_last();
                    lemma_sets_finite(maze@);
                    vstd::set_lib::lemma_len_subset(tree_cells(maze@), all_cells(maze@));
                }
            },
        }
    }
}

} // verus!

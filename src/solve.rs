//! The race of depth-first solvers. Each worker owns a stack and a private
//! pair of bits (seen, paint) in every square; one step of a worker is one
//! hold of the lock on the shared session, and is a function from the
//! session, the worker and a direction order to their next state.
use vstd::prelude::*;
use crate::cell::{
    view_of, CellView, NUM_THREADS, thread_bit, seen_by, is_path, is_finish, visit, unpaint,
    has_path, has_finish, is_seen_by, any_seen, lemma_visit_seen,
};
use crate::maze::{Maze, MazeView, Point, lemma_index, lemma_index_injective, lemma_dims};
use crate::cell::{set_start, set_finish};
use crate::random::{random_below, direction_order};
use rand::rngs::StdRng;

verus! {

/// A finish square taken by a worker in gather mode.
#[derive(Clone, Copy, Debug, PartialEq, Eq, Structural)]
pub struct Claim {
    pub worker: usize,
    pub finish: Point,
}

/// What one step of a worker came to.
#[derive(Clone, Copy, Debug, PartialEq, Eq, Structural)]
pub enum Step {
    /// It moved on to an unvisited neighbour.
    Moved,
    /// It met a dead end and stepped back.
    Backtracked,
    /// It reached a finish square and took it.
    Won,
    /// Another worker has already won.
    Stopped,
    /// Its stack is empty: nothing reachable is left to visit.
    Exhausted,
    /// The session was cancelled.
    Cancelled,
}

#[derive(Clone, Copy, Debug, PartialEq, Eq, Structural)]
pub enum SolveError {
    /// More workers than there are private bit pairs.
    TooManyWorkers,
    /// The start square lies outside the grid.
    StartOutside,
}

/// One solver worker: its index selects its private bits.
pub struct Worker {
    pub index: usize,
    pub start: Point,
    pub dfs: Vec<Point>,
}

/// The state that the shared monitor guards: the grid, the hunt winner and
/// the claimed finishes of gather mode. In an animated session a worker
/// clears its paint from a dead end as it backs out of it; otherwise steps
/// only ever set bits.
pub struct SolveSession {
    pub maze: Maze,
    pub win: Option<usize>,
    pub claims: Vec<Claim>,
    pub animated: bool,
}

/// The square one step from `p` in direction `d`: north, east, south, west.
pub open spec fn neighbour(p: Point, d: int) -> Point {
    if d == 0 {
        Point { row: (p.row - 1) as i32, col: p.col }
    } else if d == 1 {
        Point { row: p.row, col: (p.col + 1) as i32 }
    } else if d == 2 {
        Point { row: (p.row + 1) as i32, col: p.col }
    } else {
        Point { row: p.row, col: (p.col - 1) as i32 }
    }
}

/// A square worker `t` may step onto: a passage it has not visited.
pub open spec fn eligible(v: MazeView, p: Point, t: usize) -> bool {
    v.in_bounds(p) && is_path(v.at(p)) && !seen_by(v.at(p), t)
}

/// The first neighbour of `cur`, trying the directions of `order` from
/// position `i` on, that worker `t` may step onto.
pub open spec fn first_open(v: MazeView, cur: Point, t: usize, order: Seq<usize>, i: int) -> Option<
    Point,
>
    decreases order.len() - i,
{
    if i < 0 || i >= order.len() {
        None
    } else if order[i] < 4 && eligible(v, neighbour(cur, order[i] as int), t) {
        Some(neighbour(cur, order[i] as int))
    } else {
        first_open(v, cur, t, order, i + 1)
    }
}

/// The fields of a square after worker `t` visits it.
pub open spec fn visited(c: CellView, t: usize) -> CellView {
    CellView { seen: c.seen | thread_bit(t), paint: c.paint | thread_bit(t), ..c }
}

/// The fields of a square after worker `t` visits it and backs out of it.
pub open spec fn abandoned(c: CellView, t: usize) -> CellView {
    CellView { seen: c.seen | thread_bit(t), paint: (c.paint | thread_bit(t)) & !thread_bit(t), ..c }
}

/// `b` is `a` with the square at `p` given the fields `c`.
pub open spec fn only_changed(a: MazeView, b: MazeView, p: Point, c: CellView) -> bool {
    &&& b.wf()
    &&& b.same_shape(a)
    &&& view_of(b.at(p)) == c
    &&& forall|q: Point| a.in_bounds(q) && q != p ==> #[trigger] b.at(q) == a.at(q)
}

/// The winner slot is set at most once: once set it keeps its value, and
/// it can only be set to the index of the worker that stepped.
pub open spec fn winner_kept(before: Option<usize>, after: Option<usize>, index: usize) -> bool {
    &&& before is Some ==> after == before
    &&& before is None ==> (after is None || after == Some(index))
}

impl Worker {
    pub open spec fn wf(&self, v: MazeView) -> bool {
        &&& self.index < NUM_THREADS
        &&& forall|i: int| 0 <= i < self.dfs@.len() ==> v.in_bounds(#[trigger] self.dfs@[i])
    }

    /// A worker with index `index` whose search begins at `start` on `maze`.
    pub fn new(index: usize, start: Point, maze: &Maze) -> (r: Result<Worker, SolveError>)
        ensures
            r is Ok <==> index < NUM_THREADS && maze@.in_bounds(start),
            r matches Ok(w) ==> w.index == index && w.start == start && w.dfs@ == seq![start]
                && w.wf(maze@),
            index >= NUM_THREADS ==> r == Err::<Worker, SolveError>(SolveError::TooManyWorkers),
            index < NUM_THREADS && !maze@.in_bounds(start) ==> r == Err::<Worker, SolveError>(
                SolveError::StartOutside,
            ),
    {
        if index >= NUM_THREADS {
            return Err(SolveError::TooManyWorkers);
        }
        if !maze.in_bounds(start) {
            return Err(SolveError::StartOutside);
        }
        let mut dfs: Vec<Point> = Vec::new();
        dfs.push(start);
        Ok(Worker { index, start, dfs })
    }

    pub fn stack_len(&self) -> (n: usize)
        ensures
            n == self.dfs@.len(),
    {
        self.dfs.len()
    }
}

/// The claimed finishes are finish squares that some worker has visited,
/// no two alike.
pub open spec fn claims_ok(v: MazeView, claims: Seq<Claim>) -> bool {
    &&& forall|i: int|
        0 <= i < claims.len() ==> {
            &&& v.in_bounds(#[trigger] claims[i].finish)
            &&& is_finish(v.at(claims[i].finish))
            &&& view_of(v.at(claims[i].finish)).seen != 0
        }
    &&& forall|i: int, j: int|
        0 <= i < j < claims.len() ==> #[trigger] claims[i].finish != #[trigger] claims[j].finish
}

fn step_to(p: Point, d: usize) -> (n: Point)
    requires
        d < 4,
        0 <= p.row < i32::MAX,
        0 <= p.col < i32::MAX,
    ensures
        n == neighbour(p, d as int),
{
    if d == 0 {
        Point { row: p.row - 1, col: p.col }
    } else if d == 1 {
        Point { row: p.row, col: p.col + 1 }
    } else if d == 2 {
        Point { row: p.row + 1, col: p.col }
    } else {
        Point { row: p.row, col: p.col - 1 }
    }
}

/// Writing one square of a grid leaves the others as they were.
proof fn lemma_set_frame(a: MazeView, b: MazeView, p: Point, x: u32)
    requires
        a.wf(),
        a.in_bounds(p),
        b.wf(),
        b.same_shape(a),
        b.cells == a.cells.update(a.idx(p), x),
    ensures
        b.at(p) == x,
        forall|q: Point| a.in_bounds(q) && q != p ==> #[trigger] b.at(q) == a.at(q),
{
    lemma_index(p, a.rows, a.cols);
    assert forall|q: Point| a.in_bounds(q) && q != p implies #[trigger] b.at(q) == a.at(q) by {
        lemma_index(q, a.rows, a.cols);
        lemma_index_injective(p, q, a.rows, a.cols);
    }
}

impl SolveSession {
    /// A session on `maze` with no winner and no claims.
    pub fn new(maze: Maze, animated: bool) -> (s: SolveSession)
        ensures
            s.maze@ == maze@,
            s.win is None,
            s.claims@ == Seq::<Claim>::empty(),
            s.animated == animated,
    {
        SolveSession { maze, win: None, claims: Vec::new(), animated }
    }

    /// Worker `t` visits `cur`: its seen and paint bits are set there.
    fn mark_visited(&mut self, cur: Point, t: usize)
        requires
            old(self).maze@.wf(),
            old(self).maze@.in_bounds(cur),
            t < NUM_THREADS,
        ensures
            only_changed(
                old(self).maze@,
                final(self).maze@,
                cur,
                visited(view_of(old(self).maze@.at(cur)), t),
            ),
            final(self).win == old(self).win,
            final(self).claims == old(self).claims,
            final(self).animated == old(self).animated,
    {
        let ghost a = self.maze@;
        let c = self.maze.get(cur);
        let x = visit(c, t);
        self.maze.set(cur, x);
        proof {
            lemma_set_frame(a, self.maze@, cur, x);
        }
    }

    /// The part of a step that both modes share: visit the top of the stack,
    /// then push the first open neighbour in `order`, or, at a dead end, pop
    /// (clearing this worker's paint there first in an animated session).
    fn explore(&mut self, worker: &mut Worker, order: &Vec<usize>) -> (r: Step)
        requires
            old(self).maze@.wf(),
            old(worker).wf(old(self).maze@),
            old(worker).dfs@.len() > 0,
        ensures
            final(self).win == old(self).win,
            final(self).claims == old(self).claims,
            final(worker).index == old(worker).index,
            final(worker).start == old(worker).start,
            final(worker).wf(final(self).maze@),
            final(self).animated == old(self).animated,
            explored(
                old(self).animated,
                old(self).maze@,
                old(worker).index,
                old(worker).dfs@,
                order@,
                final(self).maze@,
                final(worker).dfs@,
                r,
            ),
    {
        let ghost v = self.maze@;
        let t = worker.index;
        let cur = worker.dfs[worker.dfs.len() - 1];
        proof {
            lemma_dims(v);
        }
        self.mark_visited(cur, t);
        let ghost v1 = self.maze@;
        let mut i: usize = 0;
        while i < order.len()
            invariant
                self.maze@ == v1,
                v == old(self).maze@,
                v1.wf(),
                v.wf(),
                v.in_bounds(cur),
                v.rows <= crate::maze::MAX_SQUARES,
                v.cols <= crate::maze::MAX_SQUARES,
                only_changed(v, v1, cur, visited(view_of(v.at(cur)), t)),
                t < NUM_THREADS,
                t == worker.index,
                self.win == old(self).win,
                self.claims == old(self).claims,
                self.animated == old(self).animated,
                worker.dfs@ == old(worker).dfs@,
                worker.index == old(worker).index,
                worker.start == old(worker).start,
                old(worker).wf(v),
                old(worker).dfs@.len() > 0,
                cur == old(worker).dfs@.last(),
                i <= order@.len(),
                first_open(v, cur, t, order@, 0) == first_open(v, cur, t, order@, i as int),
            decreases order@.len() - i,
        {
            let d = order[i];
            if d < 4 {
                let n = step_to(cur, d);
                if self.maze.in_bounds(n) {
                    let nc = self.maze.get(n);
                    proof {
                        assert(n != cur);
                        assert(v1.at(n) == v.at(n));
                    }
                    if has_path(nc) && !is_seen_by(nc, t) {
                        worker.dfs.push(n);
                        proof {
                            assert(eligible(v, n, t));
                            assert(first_open(v, cur, t, order@, i as int) == Some(n));

                            assert forall|k: int| 0 <= k < worker.dfs@.len() implies v1.in_bounds(
                                #[trigger] worker.dfs@[k],
                            ) by {
                                if k < worker.dfs@.len() - 1 {
                                    assert(worker.dfs@[k] == old(worker).dfs@[k]);
                                }
                            }
                        }
                        return Step::Moved;
                    }
                } else {
                    proof {
                        assert(!v.in_bounds(n));
                    }
                }
            }
            i = i + 1;
        }
        if self.animated {
            let c = self.maze.get(cur);
            let x = unpaint(c, t);
            self.maze.set(cur, x);
            proof {
                lemma_set_frame(v1, self.maze@, cur, x);
                assert(only_changed(v, self.maze@, cur, abandoned(view_of(v.at(cur)), t)));
            }
        }
        worker.dfs.pop();
        proof {
            assert forall|k: int| 0 <= k < worker.dfs@.len() implies self.maze@.in_bounds(
                #[trigger] worker.dfs@[k],
            ) by {
                assert(worker.dfs@[k] == old(worker).dfs@[k]);
            }
        }
        Step::Backtracked
    }

    /// One step of a worker in hunt (or corners) mode, under one hold of the
    /// lock. The first worker to stand on a finish square takes the winner
    /// slot; after that every worker stops.
    pub fn hunt_step(&mut self, worker: &mut Worker, order: &Vec<usize>, cancelled: bool) -> (r:
        Step)
        requires
            old(self).maze@.wf(),
            old(worker).wf(old(self).maze@),
        ensures
            final(self).maze@.wf(),
            final(self).maze@.same_shape(old(self).maze@),
            final(worker).wf(final(self).maze@),
            final(worker).index == old(worker).index,
            final(self).claims == old(self).claims,
            winner_kept(old(self).win, final(self).win, old(worker).index),
            final(self).animated == old(self).animated,
            hunt_spec(
                old(self).animated,
                old(self).maze@,
                old(self).win,
                old(worker).index,
                old(worker).dfs@,
                order@,
                cancelled,
                final(self).maze@,
                final(self).win,
                final(worker).dfs@,
                r,
            ),
    {
        if cancelled {
            return Step::Cancelled;
        }
        if worker.dfs.len() == 0 {
            return Step::Exhausted;
        }
        if self.win.is_some() {
            return Step::Stopped;
        }
        let cur = worker.dfs[worker.dfs.len() - 1];
        let c = self.maze.get(cur);
        if has_finish(c) {
            self.mark_visited(cur, worker.index);
            self.win = Some(worker.index);
            return Step::Won;
        }
        self.explore(worker, order)
    }

    /// One step of a worker in gather mode, under one hold of the lock. A
    /// worker that stands on a finish square no worker has visited claims it
    /// and stops; any other worker goes on exploring.
    pub fn gather_step(&mut self, worker: &mut Worker, order: &Vec<usize>, cancelled: bool) -> (r:
        Step)
        requires
            old(self).maze@.wf(),
            old(worker).wf(old(self).maze@),
            claims_ok(old(self).maze@, old(self).claims@),
        ensures
            final(self).maze@.wf(),
            final(self).maze@.same_shape(old(self).maze@),
            final(worker).wf(final(self).maze@),
            final(worker).index == old(worker).index,
            final(self).win == old(self).win,
            claims_ok(final(self).maze@, final(self).claims@),
            r != Step::Won ==> final(self).claims@ == old(self).claims@,
            final(self).animated == old(self).animated,
            gather_spec(
                old(self).animated,
                old(self).maze@,
                old(self).claims@,
                old(worker).index,
                old(worker).dfs@,
                order@,
                cancelled,
                final(self).maze@,
                final(self).claims@,
                final(worker).dfs@,
                r,
            ),
    {
        if cancelled {
            return Step::Cancelled;
        }
        if worker.dfs.len() == 0 {
            return Step::Exhausted;
        }
        let ghost v = self.maze@;
        let ghost cl = self.claims@;
        let cur = worker.dfs[worker.dfs.len() - 1];
        let c = self.maze.get(cur);
        if has_finish(c) && !any_seen(c) {
            self.mark_visited(cur, worker.index);
            self.claims.push(Claim { worker: worker.index, finish: cur });
            proof {
                lemma_visit_seen(c, worker.index);
                let v2 = self.maze@;
                let cl2 = self.claims@;
                assert forall|i: int| 0 <= i < cl2.len() implies {
                    &&& v2.in_bounds(#[trigger] cl2[i].finish)
                    &&& is_finish(v2.at(cl2[i].finish))
                    &&& view_of(v2.at(cl2[i].finish)).seen != 0
                } by {
                    if i < cl.len() {
                        assert(cl2[i] == cl[i]);
                        assert(cl[i].finish != cur);
                    }
                }
                assert forall|i: int, j: int| 0 <= i < j < cl2.len() implies #[trigger] cl2[i].finish
                    != #[trigger] cl2[j].finish by {
                    if j == cl.len() {
                        assert(cl2[i] == cl[i]);
                    } else {
                        assert(cl2[i] == cl[i] && cl2[j] == cl[j]);
                    }
                }
            }
            return Step::Won;
        }
        let r = self.explore(worker, order);
        proof {
            let v2 = self.maze@;
            let cur_old = view_of(v.at(cur));
            assert forall|i: int| 0 <= i < cl.len() implies {
                &&& v2.in_bounds(#[trigger] cl[i].finish)
                &&& is_finish(v2.at(cl[i].finish))
                &&& view_of(v2.at(cl[i].finish)).seen != 0
            } by {
                if cl[i].finish == cur {
                    lemma_visit_seen(v.at(cur), worker.index);
                }
            }
        }
        r
    }
}

/// What the shared part of a step did, in terms of the stack's top `cur`.
pub open spec fn explored(
    animated: bool,
    v: MazeView,
    t: usize,
    dfs: Seq<Point>,
    order: Seq<usize>,
    v2: MazeView,
    dfs2: Seq<Point>,
    r: Step,
) -> bool {
    let cur = dfs.last();
    match first_open(v, cur, t, order, 0) {
        Some(n) => {
            &&& r == Step::Moved
            &&& dfs2 == dfs.push(n)
            &&& only_changed(v, v2, cur, visited(view_of(v.at(cur)), t))
        },
        None => {
            &&& r == Step::Backtracked
            &&& dfs2 == dfs.drop_last()
            &&& animated ==> only_changed(v, v2, cur, abandoned(view_of(v.at(cur)), t))
            &&& !animated ==> only_changed(v, v2, cur, visited(view_of(v.at(cur)), t))
        },
    }
}

/// One hunt step, case by case.
pub open spec fn hunt_spec(
    animated: bool,
    v: MazeView,
    win: Option<usize>,
    t: usize,
    dfs: Seq<Point>,
    order: Seq<usize>,
    cancelled: bool,
    v2: MazeView,
    win2: Option<usize>,
    dfs2: Seq<Point>,
    r: Step,
) -> bool {
    if cancelled {
        r == Step::Cancelled && v2 == v && win2 == win && dfs2 == dfs
    } else if dfs.len() == 0 {
        r == Step::Exhausted && v2 == v && win2 == win && dfs2 == dfs
    } else if win is Some {
        r == Step::Stopped && v2 == v && win2 == win && dfs2 == dfs
    } else if is_finish(v.at(dfs.last())) {
        &&& r == Step::Won
        &&& win2 == Some(t)
        &&& dfs2 == dfs
        &&& only_changed(v, v2, dfs.last(), visited(view_of(v.at(dfs.last())), t))
    } else {
        win2 == win && explored(animated, v, t, dfs, order, v2, dfs2, r)
    }
}

/// One gather step, case by case.
pub open spec fn gather_spec(
    animated: bool,
    v: MazeView,
    claims: Seq<Claim>,
    t: usize,
    dfs: Seq<Point>,
    order: Seq<usize>,
    cancelled: bool,
    v2: MazeView,
    claims2: Seq<Claim>,
    dfs2: Seq<Point>,
    r: Step,
) -> bool {
    if cancelled {
        r == Step::Cancelled && v2 == v && claims2 == claims && dfs2 == dfs
    } else if dfs.len() == 0 {
        r == Step::Exhausted && v2 == v && claims2 == claims && dfs2 == dfs
    } else if is_finish(v.at(dfs.last())) && view_of(v.at(dfs.last())).seen == 0 {
        &&& r == Step::Won
        &&& claims2 == claims.push(Claim { worker: t, finish: dfs.last() })
        &&& dfs2 == dfs
        &&& only_changed(v, v2, dfs.last(), visited(view_of(v.at(dfs.last())), t))
    } else {
        claims2 == claims && explored(animated, v, t, dfs, order, v2, dfs2, r)
    }
}

/// Whatever order workers take their hunt steps in, the winner slot, once
/// set, keeps its value: no two indices are ever recorded as winner.
/// `wins[i]` is the slot before step `i`, taken by worker `who[i]`.
pub proof fn lemma_single_winner(wins: Seq<Option<usize>>, who: Seq<usize>)
    requires
        wins.len() == who.len() + 1,
        forall|i: int| 0 <= i < who.len() ==> winner_kept(wins[i], wins[i + 1], #[trigger] who[i]),
    ensures
        forall|i: int, j: int|
            0 <= i <= j < wins.len() && (#[trigger] wins[i]) is Some ==> #[trigger] wins[j]
                == wins[i],
        forall|i: int, j: int|
            0 <= i < wins.len() && 0 <= j < wins.len() && (#[trigger] wins[i]) is Some && (
            #[trigger] wins[j]) is Some ==> wins[i] == wins[j],
{
    assert forall|i: int, j: int| 0 <= i <= j < wins.len() && (#[trigger] wins[i]) is Some implies #[trigger] wins[j]
        == wins[i] by {
        lemma_winner_from(wins, who, i, j);
    }
    assert forall|i: int, j: int|
        0 <= i < wins.len() && 0 <= j < wins.len() && (#[trigger] wins[i]) is Some && (
        #[trigger] wins[j]) is Some implies wins[i] == wins[j] by {
        if i <= j {
            lemma_winner_from(wins, who, i, j);
        } else {
            lemma_winner_from(wins, who, j, i);
        }
    }
}

proof fn lemma_winner_from(wins: Seq<Option<usize>>, who: Seq<usize>, i: int, j: int)
    requires
        wins.len() == who.len() + 1,
        forall|k: int| 0 <= k < who.len() ==> winner_kept(wins[k], wins[k + 1], #[trigger] who[k]),
        0 <= i <= j < wins.len(),
        wins[i] is Some,
    ensures
        wins[j] == wins[i],
    decreases j - i,
{
    if i < j {
        lemma_winner_from(wins, who, i, j - 1);
        assert(winner_kept(wins[j - 1], wins[j], who[j - 1]));
    }
}

/// With the cancellation flag set before the workers start, no step of any
/// worker, in any order, changes the grid or the winner slot, and every
/// step reports the cancellation. Step `i` is taken by worker `who[i]`,
/// whose stack goes from `before[i]` to `after[i]`.
pub proof fn lemma_cancelled_hunt(
    animated: bool,
    grids: Seq<MazeView>,
    wins: Seq<Option<usize>>,
    who: Seq<usize>,
    before: Seq<Seq<Point>>,
    orders: Seq<Seq<usize>>,
    after: Seq<Seq<Point>>,
    results: Seq<Step>,
)
    requires
        grids.len() == who.len() + 1,
        wins.len() == who.len() + 1,
        before.len() == who.len(),
        orders.len() == who.len(),
        after.len() == who.len(),
        results.len() == who.len(),
        forall|i: int|
            0 <= i < who.len() ==> hunt_spec(
                animated,
                grids[i],
                wins[i],
                #[trigger] who[i],
                before[i],
                orders[i],
                true,
                grids[i + 1],
                wins[i + 1],
                after[i],
                results[i],
            ),
    ensures
        grids.last() == grids[0],
        wins.last() == wins[0],
        forall|i: int| 0 <= i < results.len() ==> #[trigger] results[i] == Step::Cancelled,
        forall|i: int| 0 <= i < after.len() ==> #[trigger] after[i] == before[i],
    decreases who.len(),
{
    let n = who.len() as int;
    if n > 0 {
        assert(hunt_spec(
            animated,
            grids[n - 1],
            wins[n - 1],
            who[n - 1],
            before[n - 1],
            orders[n - 1],
            true,
            grids[n],
            wins[n],
            after[n - 1],
            results[n - 1],
        ));
        lemma_cancelled_hunt(
            animated,
            grids.drop_last(),
            wins.drop_last(),
            who.drop_last(),
            before.drop_last(),
            orders.drop_last(),
            after.drop_last(),
            results.drop_last(),
        );
        assert forall|i: int| 0 <= i < results.len() implies #[trigger] results[i]
            == Step::Cancelled by {
            if i < n - 1 {
                assert(results.drop_last()[i] == results[i]);
            }
        }
        assert forall|i: int| 0 <= i < after.len() implies #[trigger] after[i] == before[i] by {
            if i < n - 1 {
                assert(after.drop_last()[i] == after[i]);
                assert(before.drop_last()[i] == before[i]);
            }
        }
    }
}

/// With the cancellation flag set before the workers start, no gather step
/// of any worker, in any order, changes the grid or the claims, and every
/// step reports the cancellation.
pub proof fn lemma_cancelled_gather(
    animated: bool,
    grids: Seq<MazeView>,
    claims: Seq<Seq<Claim>>,
    who: Seq<usize>,
    before: Seq<Seq<Point>>,
    orders: Seq<Seq<usize>>,
    after: Seq<Seq<Point>>,
    results: Seq<Step>,
)
    requires
        grids.len() == who.len() + 1,
        claims.len() == who.len() + 1,
        before.len() == who.len(),
        orders.len() == who.len(),
        after.len() == who.len(),
        results.len() == who.len(),
        forall|i: int|
            0 <= i < who.len() ==> gather_spec(
                animated,
                grids[i],
                claims[i],
                #[trigger] who[i],
                before[i],
                orders[i],
                true,
                grids[i + 1],
                claims[i + 1],
                after[i],
                results[i],
            ),
    ensures
        grids.last() == grids[0],
        claims.last() == claims[0],
        forall|i: int| 0 <= i < results.len() ==> #[trigger] results[i] == Step::Cancelled,
    decreases who.len(),
{
    let n = who.len() as int;
    if n > 0 {
        assert(gather_spec(
            animated,
            grids[n - 1],
            claims[n - 1],
            who[n - 1],
            before[n - 1],
            orders[n - 1],
            true,
            grids[n],
            claims[n],
            after[n - 1],
            results[n - 1],
        ));
        lemma_cancelled_gather(
            animated,
            grids.drop_last(),
            claims.drop_last(),
            who.drop_last(),
            before.drop_last(),
            orders.drop_last(),
            after.drop_last(),
            results.drop_last(),
        );
        assert forall|i: int| 0 <= i < results.len() implies #[trigger] results[i]
            == Step::Cancelled by {
            if i < n - 1 {
                assert(results.drop_last()[i] == results[i]);
            }
        }
    }
}

/// The indices of the finish squares of a grid.
pub open spec fn finish_set(v: MazeView) -> Set<int> {
    Set::new(|i: int| 0 <= i < v.cells.len() && is_finish(v.cells[i]))
}

/// In gather mode there are at most as many claims as finish squares, and
/// each claim holds a different finish square.
pub proof fn lemma_claims_bounded(v: MazeView, claims: Seq<Claim>)
    requires
        v.wf(),
        claims_ok(v, claims),
    ensures
        claims.len() <= finish_set(v).len(),
{
    let ids = claims.map_values(|c: Claim| v.idx(c.finish));
    assert(ids.no_duplicates()) by {
        assert forall|a: int, b: int| 0 <= a < b < ids.len() implies ids[a] != ids[b] by {
            assert(claims[a].finish != claims[b].finish);
            lemma_index_injective(claims[a].finish, claims[b].finish, v.rows, v.cols);
        }
    }
    ids.unique_seq_to_set();
    vstd::set_lib::lemma_int_range(0, v.cells.len() as int);
    assert(finish_set(v).subset_of(vstd::set_lib::set_int_range(0, v.cells.len() as int)));
    vstd::set_lib::lemma_len_subset(
        finish_set(v),
        vstd::set_lib::set_int_range(0, v.cells.len() as int),
    );
    assert(ids.to_set().subset_of(finish_set(v))) by {
        assert forall|x: int| ids.to_set().contains(x) implies finish_set(v).contains(x) by {
            let k = choose|k: int| 0 <= k < ids.len() && ids[k] == x;
            assert(v.in_bounds(claims[k].finish));
            lemma_index(claims[k].finish, v.rows, v.cols);
        }
    }
    vstd::set_lib::lemma_len_subset(ids.to_set(), finish_set(v));
}

impl SolveSession {
    /// Sets `x` at `p` and keeps every other square.
    fn write(&mut self, p: Point, x: u32)
        requires
            old(self).maze@.wf(),
            old(self).maze@.in_bounds(p),
        ensures
            only_changed(old(self).maze@, final(self).maze@, p, view_of(x)),
            final(self).win == old(self).win,
            final(self).claims == old(self).claims,
            final(self).animated == old(self).animated,
    {
        let ghost a = self.maze@;
        self.maze.set(p, x);
        proof {
            lemma_set_frame(a, self.maze@, p, x);
        }
    }

    /// Marks `p` as a start square.
    pub fn place_start(&mut self, p: Point)
        requires
            old(self).maze@.wf(),
            old(self).maze@.in_bounds(p),
        ensures
            only_changed(
                old(self).maze@,
                final(self).maze@,
                p,
                (CellView { start: true, ..view_of(old(self).maze@.at(p)) }),
            ),
            final(self).win == old(self).win,
            final(self).claims == old(self).claims,
            final(self).animated == old(self).animated,
    {
        let c = self.maze.get(p);
        self.write(p, set_start(c));
    }

    /// Marks `p` as a finish square.
    pub fn place_finish(&mut self, p: Point)
        requires
            old(self).maze@.wf(),
            old(self).maze@.in_bounds(p),
        ensures
            only_changed(
                old(self).maze@,
                final(self).maze@,
                p,
                (CellView { finish: true, ..view_of(old(self).maze@.at(p)) }),
            ),
            final(self).win == old(self).win,
            final(self).claims == old(self).claims,
            final(self).animated == old(self).animated,
    {
        let c = self.maze.get(p);
        self.write(p, set_finish(c));
    }

    /// The passage squares of the grid, row by row.
    pub fn passages(&self) -> (ps: Vec<Point>)
        requires
            self.maze@.wf(),
        ensures
            forall|i: int|
                0 <= i < ps@.len() ==> self.maze@.in_bounds(#[trigger] ps@[i]) && is_path(
                    self.maze@.at(ps@[i]),
                ),
            forall|q: Point|
                self.maze@.in_bounds(q) && is_path(#[trigger] self.maze@.at(q)) ==> ps@.contains(
                    q,
                ),
    {
        let ghost v = self.maze@;
        let mut ps: Vec<Point> = Vec::new();
        let rows = self.maze.rows();
        let cols = self.maze.cols();
        let mut r: i32 = 0;
        while r < rows
            invariant
                v == self.maze@,
                v.wf(),
                rows == v.rows,
                cols == v.cols,
                0 <= r <= rows,
                forall|i: int|
                    0 <= i < ps@.len() ==> v.in_bounds(#[trigger] ps@[i]) && is_path(v.at(ps@[i])),
                forall|q: Point|
                    v.in_bounds(q) && q.row < r && is_path(#[trigger] v.at(q)) ==> ps@.contains(q),
            decreases rows - r,
        {
            let mut c: i32 = 0;
            while c < cols
                invariant
                    v == self.maze@,
                    v.wf(),
                    rows == v.rows,
                    cols == v.cols,
                    0 <= r < rows,
                    0 <= c <= cols,
                    forall|i: int|
                        0 <= i < ps@.len() ==> v.in_bounds(#[trigger] ps@[i]) && is_path(
                            v.at(ps@[i]),
                        ),
                    forall|q: Point|
                        v.in_bounds(q) && (q.row < r || (q.row == r && q.col < c)) && is_path(
                            #[trigger] v.at(q),
                        ) ==> ps@.contains(q),
                decreases cols - c,
            {
                let p = Point { row: r, col: c };
                if has_path(self.maze.get(p)) {
                    let ghost before = ps@;
                    ps.push(p);
                    proof {
                        assert(ps@[ps@.len() - 1] == p);
                        assert forall|q: Point|
                            v.in_bounds(q) && (q.row < r || (q.row == r && q.col < c + 1))
                                && is_path(#[trigger] v.at(q)) implies ps@.contains(q) by {
                            if q != p {
                                assert(before.contains(q));
                                let k = choose|k: int| 0 <= k < before.len() && before[k] == q;
                                assert(ps@[k] == q);
                            }
                        }
                    }
                }
                c = c + 1;
            }
            r = r + 1;
        }
        ps
    }

    /// A passage square chosen at random, or `None` where the grid has none.
    pub fn pick_passage(&self, rng: &mut StdRng) -> (r: Option<Point>)
        requires
            self.maze@.wf(),
        ensures
            r matches Some(p) ==> self.maze@.in_bounds(p) && is_path(self.maze@.at(p)),
            r is None <==> forall|q: Point|
                self.maze@.in_bounds(q) ==> !is_path(#[trigger] self.maze@.at(q)),
    {
        let ps = self.passages();
        if ps.len() == 0 {
            proof {
                assert forall|q: Point| self.maze@.in_bounds(q) implies !is_path(
                    #[trigger] self.maze@.at(q),
                ) by {
                    if is_path(self.maze@.at(q)) {
                        assert(ps@.contains(q));
                    }
                }
            }
            None
        } else {
            let k = random_below(rng, ps.len());
            let p = ps[k];
            proof {
                assert(self.maze@.in_bounds(ps@[k as int]));
            }
            Some(p)
        }
    }

    /// Hunt mode: a random passage becomes the common start and a random
    /// passage the finish. Returns both, or `None` where the session is
    /// cancelled or the grid has no passage. Only the start and finish bits
    /// of those two squares change.
    pub fn prepare_hunt(&mut self, rng: &mut StdRng, cancelled: bool) -> (r: Option<(Point, Point)>)
        requires
            old(self).maze@.wf(),
        ensures
            final(self).maze@.wf(),
            final(self).maze@.same_shape(old(self).maze@),
            final(self).win == old(self).win,
            final(self).claims == old(self).claims,
            final(self).animated == old(self).animated,
            r is None <==> cancelled || no_passage(old(self).maze@),
            r is None ==> final(self).maze@ == old(self).maze@,
            r matches Some(sf) ==> {
                &&& old(self).maze@.in_bounds(sf.0) && is_path(old(self).maze@.at(sf.0))
                &&& old(self).maze@.in_bounds(sf.1) && is_path(old(self).maze@.at(sf.1))
                &&& marked_only(old(self).maze@, final(self).maze@, set![sf.0], set![sf.1])
            },
    {
        let ghost v0 = self.maze@;
        if cancelled {
            return None;
        }
        let start = match self.pick_passage(rng) {
            None => {
                return None;
            },
            Some(p) => p,
        };
        proof {
            lemma_marked_none(v0);
        }
        self.place_start(start);
        proof {
            lemma_mark(v0, old(self).maze@, self.maze@, Set::empty(), Set::empty(), start, true);
            assert(Set::<Point>::empty().insert(start) =~= set![start]);
        }
        let ghost v1 = self.maze@;
        let finish = match self.pick_passage(rng) {
            None => {
                proof {
                    assert(view_of(v1.at(start)).path);
                }
                return None;
            },
            Some(p) => p,
        };
        self.place_finish(finish);
        proof {
            lemma_mark(v0, v1, self.maze@, set![start], Set::empty(), finish, false);
            assert(Set::<Point>::empty().insert(finish) =~= set![finish]);
            assert(view_of(v1.at(finish)) == marked(view_of(v0.at(finish)), finish == start, false));
        }
        Some((start, finish))
    }

    /// Gather mode: a random passage becomes the common start and
    /// `finishes` random passages become finish squares. Returns the start
    /// and the finishes placed, or `None` where the session is cancelled or
    /// the grid has no passage. Only start and finish bits change.
    pub fn prepare_gather(&mut self, rng: &mut StdRng, finishes: usize, cancelled: bool) -> (r:
        Option<(Point, Vec<Point>)>)
        requires
            old(self).maze@.wf(),
        ensures
            final(self).maze@.wf(),
            final(self).maze@.same_shape(old(self).maze@),
            final(self).win == old(self).win,
            final(self).claims == old(self).claims,
            final(self).animated == old(self).animated,
            r is None <==> cancelled || no_passage(old(self).maze@),
            r is None ==> final(self).maze@ == old(self).maze@,
            r matches Some(sf) ==> {
                &&& old(self).maze@.in_bounds(sf.0) && is_path(old(self).maze@.at(sf.0))
                &&& sf.1@.len() == finishes
                &&& forall|i: int|
                    0 <= i < sf.1@.len() ==> old(self).maze@.in_bounds(#[trigger] sf.1@[i])
                        && is_path(old(self).maze@.at(sf.1@[i]))
                &&& marked_only(old(self).maze@, final(self).maze@, set![sf.0], sf.1@.to_set())
            },
    {
        let ghost v0 = self.maze@;
        if cancelled {
            return None;
        }
        let start = match self.pick_passage(rng) {
            None => {
                return None;
            },
            Some(p) => p,
        };
        proof {
            lemma_marked_none(v0);
        }
        self.place_start(start);
        proof {
            lemma_mark(v0, old(self).maze@, self.maze@, Set::empty(), Set::empty(), start, true);
            assert(Set::<Point>::empty().insert(start) =~= set![start]);
        }
        let mut placed: Vec<Point> = Vec::new();
        proof {
            assert(placed@.to_set() =~= Set::<Point>::empty());
        }
        let mut k: usize = 0;
        while k < finishes
            invariant
                v0 == old(self).maze@,
                v0.wf(),
                self.maze@.wf(),
                self.maze@.same_shape(v0),
                self.win == old(self).win,
                self.claims == old(self).claims,
                self.animated == old(self).animated,
                v0.in_bounds(start),
                is_path(v0.at(start)),
                k <= finishes,
                placed@.len() == k,
                forall|i: int|
                    0 <= i < placed@.len() ==> v0.in_bounds(#[trigger] placed@[i]) && is_path(
                        v0.at(placed@[i]),
                    ),
                marked_only(v0, self.maze@, set![start], placed@.to_set()),
            decreases finishes - k,
        {
            let ghost v1 = self.maze@;
            proof {
                assert(view_of(v1.at(start)).path);
            }
            match self.pick_passage(rng) {
                None => {
                    proof {
                        assert(view_of(v1.at(start)).path);
                    }
                },
                Some(f) => {
                    self.place_finish(f);
                    proof {
                        assert(view_of(v1.at(f)).path == view_of(v0.at(f)).path);
                        lemma_mark(v0, v1, self.maze@, set![start], placed@.to_set(), f, false);
                    }
                    let ghost before = placed@;
                    placed.push(f);
                    proof {
                        before.lemma_push_to_set_commute(f);
                        assert forall|i: int| 0 <= i < placed@.len() implies v0.in_bounds(
                            #[trigger] placed@[i],
                        ) && is_path(v0.at(placed@[i])) by {
                            if i < before.len() {
                                assert(placed@[i] == before[i]);
                            }
                        }
                    }
                },
            }
            k = k + 1;
        }
        Some((start, placed))
    }
}

/// The grid has no passage square.
pub open spec fn no_passage(v: MazeView) -> bool {
    forall|q: Point| v.in_bounds(q) ==> !is_path(#[trigger] v.at(q))
}

/// The fields of a square after setup has marked it as a start, a finish,
/// both or neither.
pub open spec fn marked(c: CellView, start: bool, finish: bool) -> CellView {
    CellView { start: c.start || start, finish: c.finish || finish, ..c }
}

/// `b` is `a` with the squares in `s` marked as starts and those in `f` as
/// finishes, and nothing else changed.
pub open spec fn marked_only(a: MazeView, b: MazeView, s: Set<Point>, f: Set<Point>) -> bool {
    &&& b.wf()
    &&& b.same_shape(a)
    &&& forall|q: Point|
        a.in_bounds(q) ==> view_of(#[trigger] b.at(q)) == marked(
            view_of(a.at(q)),
            s.contains(q),
            f.contains(q),
        )
}

proof fn lemma_marked_none(a: MazeView)
    requires
        a.wf(),
    ensures
        marked_only(a, a, Set::empty(), Set::empty()),
{
    assert forall|q: Point| a.in_bounds(q) implies view_of(#[trigger] a.at(q)) == marked(
        view_of(a.at(q)),
        Set::<Point>::empty().contains(q),
        Set::<Point>::empty().contains(q),
    ) by {
        let c = view_of(a.at(q));
        assert(marked(c, false, false) == c);
    }
}

/// Marking one more start (`start`) or finish (`!start`) at `p`.
proof fn lemma_mark(
    a: MazeView,
    b: MazeView,
    c: MazeView,
    s: Set<Point>,
    f: Set<Point>,
    p: Point,
    start: bool,
)
    requires
        a.wf(),
        a.in_bounds(p),
        marked_only(a, b, s, f),
        start ==> only_changed(b, c, p, (CellView { start: true, ..view_of(b.at(p)) })),
        !start ==> only_changed(b, c, p, (CellView { finish: true, ..view_of(b.at(p)) })),
    ensures
        start ==> marked_only(a, c, s.insert(p), f),
        !start ==> marked_only(a, c, s, f.insert(p)),
{
    if start {
        assert forall|q: Point| a.in_bounds(q) implies view_of(#[trigger] c.at(q)) == marked(
            view_of(a.at(q)),
            s.insert(p).contains(q),
            f.contains(q),
        ) by {
            assert(view_of(b.at(q)) == marked(view_of(a.at(q)), s.contains(q), f.contains(q)));
        }
    } else {
        assert forall|q: Point| a.in_bounds(q) implies view_of(#[trigger] c.at(q)) == marked(
            view_of(a.at(q)),
            s.contains(q),
            f.insert(p).contains(q),
        ) by {
            assert(view_of(b.at(q)) == marked(view_of(a.at(q)), s.contains(q), f.contains(q)));
        }
    }
}

/// The corner cells of a `rows` by `cols` maze, by number: top left, top
/// right, bottom left, bottom right. Cells lie at odd rows and columns.
pub open spec fn corner(rows: int, cols: int, k: int) -> Point {
    let last_row = if rows % 2 == 1 {
        rows - 2
    } else {
        rows - 3
    };
    let last_col = if cols % 2 == 1 {
        cols - 2
    } else {
        cols - 3
    };
    Point {
        row: (if k < 2 {
            1
        } else {
            last_row
        }) as i32,
        col: (if k % 2 == 0 {
            1
        } else {
            last_col
        }) as i32,
    }
}

/// `p` is one of the corner cells.
pub open spec fn is_corner(rows: int, cols: int, p: Point) -> bool {
    exists|k: int| 0 <= k < 4 && #[trigger] corner(rows, cols, k) == p
}

/// The corner cells as a set.
pub open spec fn corner_set(rows: int, cols: int) -> Set<Point> {
    Set::new(|p: Point| is_corner(rows, cols, p))
}

/// The cell nearest the centre: the middle row and column, moved up and
/// left by one where they are even.
pub open spec fn centre_cell(rows: int, cols: int) -> Point {
    Point {
        row: (if (rows / 2) % 2 == 1 {
            rows / 2
        } else {
            rows / 2 - 1
        }) as i32,
        col: (if (cols / 2) % 2 == 1 {
            cols / 2
        } else {
            cols / 2 - 1
        }) as i32,
    }
}

/// `perm` lists each of 0, 1, 2, 3 once.
pub open spec fn is_perm4(perm: Seq<int>) -> bool {
    &&& perm.len() == 4
    &&& forall|i: int| 0 <= i < 4 ==> 0 <= #[trigger] perm[i] < 4
    &&& forall|k: int| 0 <= k < 4 ==> #[trigger] lists(perm, k)
}

/// `k` stands somewhere among the first four entries of `perm`.
pub open spec fn lists(perm: Seq<int>, k: int) -> bool {
    exists|i: int| 0 <= i < 4 && #[trigger] perm[i] == k
}

/// The corner cells of the maze, in the order of `corner`.
pub fn corner_starts(maze: &Maze) -> (cs: Vec<Point>)
    requires
        maze@.wf(),
        3 <= maze@.rows,
        3 <= maze@.cols,
    ensures
        cs@.len() == 4,
        forall|k: int| 0 <= k < 4 ==> cs@[k] == corner(maze@.rows, maze@.cols, k),
        forall|k: int| 0 <= k < 4 ==> maze@.in_bounds(#[trigger] cs@[k]),
{
    let rows = maze.rows();
    let cols = maze.cols();
    let last_row = if rows % 2 == 1 {
        rows - 2
    } else {
        rows - 3
    };
    let last_col = if cols % 2 == 1 {
        cols - 2
    } else {
        cols - 3
    };
    let mut cs: Vec<Point> = Vec::new();
    cs.push(Point { row: 1, col: 1 });
    cs.push(Point { row: 1, col: last_col });
    cs.push(Point { row: last_row, col: 1 });
    cs.push(Point { row: last_row, col: last_col });
    cs
}

impl SolveSession {
    /// Corners mode: the four corner cells become starts and the cell
    /// nearest the centre the finish; walls and passages stay as they are.
    /// Returns the corners in a random order, one per worker, or nothing
    /// where the session is cancelled.
    pub fn prepare_corners(&mut self, rng: &mut StdRng, cancelled: bool) -> (starts: Vec<Point>)
        requires
            old(self).maze@.wf(),
            3 <= old(self).maze@.rows,
            3 <= old(self).maze@.cols,
        ensures
            final(self).maze@.wf(),
            final(self).maze@.same_shape(old(self).maze@),
            final(self).win == old(self).win,
            final(self).claims == old(self).claims,
            final(self).animated == old(self).animated,
            cancelled ==> starts@.len() == 0 && final(self).maze@ == old(self).maze@,
            !cancelled ==> starts@.len() == 4,
            !cancelled ==> exists|perm: Seq<int>|
                is_perm4(perm) && forall|i: int|
                    0 <= i < 4 ==> #[trigger] starts@[i] == corner(
                        old(self).maze@.rows,
                        old(self).maze@.cols,
                        perm[i],
                    ),
            forall|i: int| 0 <= i < starts@.len() ==> final(self).maze@.in_bounds(#[trigger] starts@[i]),
            !cancelled ==> marked_only(
                old(self).maze@,
                final(self).maze@,
                corner_set(old(self).maze@.rows, old(self).maze@.cols),
                set![centre_cell(old(self).maze@.rows, old(self).maze@.cols)],
            ),
    {
        let ghost v0 = self.maze@;
        if cancelled {
            return Vec::new();
        }
        let cs = corner_starts(&self.maze);
        proof {
            lemma_marked_none(v0);
            assert(cs@.take(0).to_set() =~= Set::<Point>::empty());
        }
        let mut k: usize = 0;
        while k < 4
            invariant
                v0 == old(self).maze@,
                v0.wf(),
                self.maze@.wf(),
                self.maze@.same_shape(v0),
                self.win == old(self).win,
                self.claims == old(self).claims,
                self.animated == old(self).animated,
                cs@.len() == 4,
                k <= 4,
                forall|j: int| 0 <= j < 4 ==> v0.in_bounds(#[trigger] cs@[j]),
                marked_only(v0, self.maze@, cs@.take(k as int).to_set(), Set::empty()),
            decreases 4 - k,
        {
            let ghost v1 = self.maze@;
            self.place_start(cs[k]);
            proof {
                lemma_mark(v0, v1, self.maze@, cs@.take(k as int).to_set(), Set::empty(), cs@[k as int], true);
                assert(cs@.take(k + 1) =~= cs@.take(k as int).push(cs@[k as int]));
                cs@.take(k as int).lemma_push_to_set_commute(cs@[k as int]);
            }
            k = k + 1;
        }
        let rows = self.maze.rows();
        let cols = self.maze.cols();
        let half_row = rows / 2;
        let half_col = cols / 2;
        let mid = Point {
            row: if half_row % 2 == 1 {
                half_row
            } else {
                half_row - 1
            },
            col: if half_col % 2 == 1 {
                half_col
            } else {
                half_col - 1
            },
        };
        let ghost v2 = self.maze@;
        self.place_finish(mid);
        proof {
            assert(cs@.take(4) =~= cs@);
            lemma_mark(v0, v2, self.maze@, cs@.to_set(), Set::empty(), mid, false);
            assert(Set::<Point>::empty().insert(mid) =~= set![mid]);
            assert(cs@.to_set() =~= corner_set(v0.rows, v0.cols)) by {
                assert forall|q: Point| cs@.to_set().contains(q) <==> corner_set(v0.rows, v0.cols).contains(q) by {
                    if cs@.contains(q) {
                        let t = choose|t: int| 0 <= t < 4 && cs@[t] == q;
                        assert(corner(v0.rows, v0.cols, t) == q);
                    }
                    if is_corner(v0.rows, v0.cols, q) {
                        let t = choose|t: int| 0 <= t < 4 && corner(v0.rows, v0.cols, t) == q;
                        assert(cs@[t] == q);
                    }
                }
            }
        }
        let order = direction_order(rng);
        let mut starts: Vec<Point> = Vec::new();
        let mut i: usize = 0;
        let ghost four = seq![0usize, 1, 2, 3];
        proof {
            order@.to_multiset_ensures();
            four.to_multiset_ensures();
            assert forall|j: int| 0 <= j < 4 implies #[trigger] order@[j] < 4 by {
                assert(order@.contains(order@[j]));
                assert(four.to_multiset().count(order@[j]) > 0);
                assert(four.contains(order@[j]));
                let t = choose|t: int| 0 <= t < four.len() && four[t] == order@[j];
                assert(four[t] < 4);
            }
        }
        while i < 4
            invariant
                cs@.len() == 4,
                order@.len() == 4,
                self.maze@.same_shape(v0),
                forall|k: int| 0 <= k < 4 ==> cs@[k] == corner(v0.rows, v0.cols, k),
                forall|k: int| 0 <= k < 4 ==> v0.in_bounds(#[trigger] cs@[k]),
                forall|j: int| 0 <= j < 4 ==> #[trigger] order@[j] < 4,
                starts@.len() == i,
                i <= 4,
                forall|j: int|
                    0 <= j < i ==> #[trigger] starts@[j] == corner(v0.rows, v0.cols, order@[j] as int),
                forall|j: int| 0 <= j < i ==> v0.in_bounds(#[trigger] starts@[j]),
            decreases 4 - i,
        {
            let o = order[i];
            starts.push(cs[o]);
            proof {
                assert(starts@[i as int] == corner(v0.rows, v0.cols, o as int));
            }
            i = i + 1;
        }
        proof {
            let perm = order@.map_values(|x: usize| x as int);
            assert forall|kk: int| 0 <= kk < 4 implies #[trigger] lists(perm, kk) by {
                assert(four[kk] == kk as usize);
                assert(four.contains(kk as usize));
                assert(four.to_multiset().count(kk as usize) > 0);
                assert(order@.to_multiset().count(kk as usize) > 0);
                assert(order@.contains(kk as usize));
                let j = choose|j: int| 0 <= j < order@.len() && order@[j] == kk as usize;
                assert(perm[j] == kk);
            }
            assert(is_perm4(perm));
            assert forall|j: int| 0 <= j < 4 implies #[trigger] starts@[j] == corner(
                v0.rows,
                v0.cols,
                perm[j],
            ) by {
                assert(perm[j] == order@[j] as int);
            }
        }
        starts
    }
}

} // verus!

//! The history tape: an append-only log of square changes, grouped into
//! bursts that belong together, which replays a generation run.
use vstd::prelude::*;
use crate::maze::{Maze, Point, on_grid};

verus! {

/// One change of one square. `burst` is the number of deltas in the burst
/// that this delta belongs to.
#[derive(Clone, Copy, Debug, PartialEq, Eq, Structural)]
pub struct Delta {
    pub id: Point,
    pub before: u32,
    pub after: u32,
    pub burst: usize,
}

/// The squares that result from writing each delta's `after` value in order.
pub open spec fn replay(cells: Seq<u32>, cols: int, ds: Seq<Delta>) -> Seq<u32>
    decreases ds.len(),
{
    if ds.len() == 0 {
        cells
    } else {
        let d = ds.last();
        replay(cells, cols, ds.drop_last()).update(d.id.row * cols + d.id.col, d.after)
    }
}

/// Every delta names a square inside a `rows` by `cols` grid.
pub open spec fn deltas_on_grid(ds: Seq<Delta>, rows: int, cols: int) -> bool {
    forall|i: int| 0 <= i < ds.len() ==> on_grid(rows, cols, #[trigger] ds[i].id)
}

pub proof fn lemma_replay_push(cells: Seq<u32>, cols: int, ds: Seq<Delta>, d: Delta)
    ensures
        replay(cells, cols, ds.push(d)) == replay(cells, cols, ds).update(
            d.id.row * cols + d.id.col,
            d.after,
        ),
{
    assert(ds.push(d).drop_last() =~= ds);
}

/// Replay keeps the length of the grid when every delta lies on it.
pub proof fn lemma_replay_len(cells: Seq<u32>, rows: int, cols: int, ds: Seq<Delta>)
    requires
        cells.len() == rows * cols,
        deltas_on_grid(ds, rows, cols),
    ensures
        replay(cells, cols, ds).len() == cells.len(),
    decreases ds.len(),
{
    if ds.len() > 0 {
        assert(deltas_on_grid(ds.drop_last(), rows, cols)) by {
            assert forall|i: int| 0 <= i < ds.drop_last().len() implies on_grid(
                rows,
                cols,
                #[trigger] ds.drop_last()[i].id,
            ) by {
                assert(ds.drop_last()[i] == ds[i]);
            }
        }
        lemma_replay_len(cells, rows, cols, ds.drop_last());
        assert(on_grid(rows, cols, ds[ds.len() - 1].id));
        crate::maze::lemma_index(ds.last().id, rows, cols);
    }
}

pub struct Tape {
    deltas: Vec<Delta>,
}

impl View for Tape {
    type V = Seq<Delta>;

    closed spec fn view(&self) -> Seq<Delta> {
        self.deltas@
    }
}

impl Tape {
    pub fn new() -> (t: Tape)
        ensures
            t@ == Seq::<Delta>::empty(),
    {
        Tape { deltas: Vec::new() }
    }

    pub fn len(&self) -> (n: usize)
        ensures
            n == self@.len(),
    {
        self.deltas.len()
    }

    pub fn get(&self, i: usize) -> (d: Delta)
        requires
            i < self@.len(),
        ensures
            d == self@[i as int],
    {
        self.deltas[i]
    }

    pub fn push(&mut self, d: Delta)
        ensures
            final(self)@ == old(self)@.push(d),
    {
        self.deltas.push(d);
    }

    /// Writes every delta's `after` value onto `maze`, in order.
    pub fn replay_onto(&self, maze: &mut Maze)
        requires
            old(maze)@.wf(),
            deltas_on_grid(self@, old(maze)@.rows, old(maze)@.cols),
        ensures
            final(maze)@.wf(),
            final(maze)@.same_shape(old(maze)@),
            final(maze)@.cells == replay(old(maze)@.cells, old(maze)@.cols, self@),
    {
        let ghost start = maze@.cells;
        let mut i: usize = 0;
        while i < self.deltas.len()
            invariant
                0 <= i <= self@.len(),
                maze@.wf(),
                maze@.same_shape(old(maze)@),
                deltas_on_grid(self@, old(maze)@.rows, old(maze)@.cols),
                maze@.cells == replay(start, maze@.cols, self@.take(i as int)),
            decreases self@.len() - i,
        {
            let d = self.deltas[i];
            assert(on_grid(maze@.rows, maze@.cols, self@[i as int].id));
            maze.set(d.id, d.after);
            proof {
                assert(self@.take(i + 1) =~= self@.take(i as int).push(d));
                lemma_replay_push(start, maze@.cols, self@.take(i as int), d);
            }
            i = i + 1;
        }
        assert(self@.take(self@.len() as int) =~= self@);
    }
}

/// Writes `v` into the square at `p` and logs the change on `tape` as a
/// member of a burst of `burst` deltas.
pub fn record(maze: &mut Maze, tape: &mut Tape, p: Point, v: u32, burst: usize)
    requires
        old(maze)@.wf(),
        old(maze)@.in_bounds(p),
    ensures
        final(maze)@.wf(),
        final(maze)@.same_shape(old(maze)@),
        final(maze)@.cells == old(maze)@.cells.update(old(maze)@.idx(p), v),
        final(tape)@ == old(tape)@.push(
            Delta { id: p, before: old(maze)@.at(p), after: v, burst },
        ),
{
    let before = maze.get(p);
    maze.set(p, v);
    tape.push(Delta { id: p, before, after: v, burst });
}

} // verus!

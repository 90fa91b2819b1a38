//! The grid store: a row-major array of squares with fixed geometry.
use vstd::prelude::*;
use crate::cell::{
    EAST_WALL, NORTH_WALL, SOUTH_WALL, WEST_WALL, is_path, has_path, view_of, CellView,
};

verus! {

#[derive(Clone, Copy, Debug, PartialEq, Eq, Structural)]
pub struct Point {
    pub row: i32,
    pub col: i32,
}

/// Where the grid sits on the screen.
#[derive(Clone, Copy, Debug, PartialEq, Eq, Structural)]
pub struct Offset {
    pub add_rows: i32,
    pub add_cols: i32,
}

/// Largest number of squares a grid may hold: every index fits an `i32`.
pub const MAX_SQUARES: i32 = 0x7FFF_FFFF;

/// What a grid is, mathematically: its size and its squares, row by row.
pub struct MazeView {
    pub rows: int,
    pub cols: int,
    pub cells: Seq<u32>,
    pub offset: Offset,
}

impl MazeView {
    pub open spec fn wf(self) -> bool {
        &&& 1 <= self.rows
        &&& 1 <= self.cols
        &&& self.rows * self.cols <= MAX_SQUARES
        &&& self.cells.len() == self.rows * self.cols
    }

    pub open spec fn in_bounds(self, p: Point) -> bool {
        0 <= p.row < self.rows && 0 <= p.col < self.cols
    }

    pub open spec fn idx(self, p: Point) -> int {
        p.row * self.cols + p.col
    }

    pub open spec fn at(self, p: Point) -> u32 {
        self.cells[self.idx(p)]
    }

    pub open spec fn same_shape(self, other: MazeView) -> bool {
        self.rows == other.rows && self.cols == other.cols && self.offset == other.offset
    }
}

/// The fields of a square with its scratch fields cleared.
pub open spec fn scrubbed(c: CellView) -> CellView {
    CellView { marker: 0, paint: 0, seen: 0, start: false, finish: false, walk: false, ..c }
}

pub open spec fn on_grid(rows: int, cols: int, p: Point) -> bool {
    0 <= p.row < rows && 0 <= p.col < cols
}

/// The wall bits of a square in a fully walled grid: one towards each
/// neighbour that lies inside the grid.
pub open spec fn walled_bits(rows: int, cols: int, r: int, c: int) -> u32 {
    (if r > 0 { NORTH_WALL } else { 0u32 }) | (if c + 1 < cols { EAST_WALL } else { 0u32 }) | (
    if r + 1 < rows { SOUTH_WALL } else { 0u32 }) | (if c > 0 { WEST_WALL } else { 0u32 })
}

/// A fully walled grid: no passages, no marks, each square joined to its
/// neighbours by wall lines.
pub open spec fn walled_grid(rows: int, cols: int) -> Seq<u32> {
    Seq::new((rows * cols) as nat, |i: int| walled_bits(rows, cols, i / cols, i % cols))
}

pub proof fn lemma_index(p: Point, rows: int, cols: int)
    requires
        on_grid(rows, cols, p),
    ensures
        0 <= p.row * cols + p.col < rows * cols,
        (p.row * cols + p.col) / cols == p.row,
        (p.row * cols + p.col) % cols == p.col,
{
    assert(0 <= p.row * cols + p.col < rows * cols) by (nonlinear_arith)
        requires
            0 <= p.row < rows,
            0 <= p.col < cols,
    ;
    vstd::arithmetic::div_mod::lemma_fundamental_div_mod_converse(
        p.row * cols + p.col,
        cols,
        p.row as int,
        p.col as int,
    );
}

/// Each side of a grid is at most its number of squares.
pub proof fn lemma_dims(v: MazeView)
    requires
        v.wf(),
    ensures
        v.rows <= MAX_SQUARES,
        v.cols <= MAX_SQUARES,
{
    assert(v.rows <= v.rows * v.cols && v.cols <= v.rows * v.cols) by (nonlinear_arith)
        requires
            1 <= v.rows,
            1 <= v.cols,
    ;
}

/// Distinct points of a grid have distinct indices.
pub proof fn lemma_index_injective(p: Point, q: Point, rows: int, cols: int)
    requires
        on_grid(rows, cols, p),
        on_grid(rows, cols, q),
        p != q,
    ensures
        p.row * cols + p.col != q.row * cols + q.col,
{
    lemma_index(p, rows, cols);
    lemma_index(q, rows, cols);
}

pub struct Maze {
    cells: Vec<u32>,
    rows: i32,
    cols: i32,
    offset: Offset,
}

impl View for Maze {
    type V = MazeView;

    closed spec fn view(&self) -> MazeView {
        MazeView {
            rows: self.rows as int,
            cols: self.cols as int,
            cells: self.cells@,
            offset: self.offset,
        }
    }
}

impl Maze {
    /// A fully walled grid of the given size.
    pub fn new(rows: i32, cols: i32, offset: Offset) -> (m: Maze)
        requires
            1 <= rows,
            1 <= cols,
            rows * cols <= MAX_SQUARES,
        ensures
            m@.wf(),
            m@.rows == rows,
            m@.cols == cols,
            m@.cells == walled_grid(rows as int, cols as int),
            m@.offset == offset,
    {
        let mut cells: Vec<u32> = Vec::new();
        let mut r: i32 = 0;
        while r < rows
            invariant
                0 <= r <= rows,
                1 <= cols,
                rows * cols <= MAX_SQUARES,
                cells@.len() == r * cols,
                forall|i: int|
                    0 <= i < cells@.len() ==> cells@[i] == walled_bits(
                        rows as int,
                        cols as int,
                        i / cols as int,
                        i % cols as int,
                    ),
            decreases rows - r,
        {
            let mut c: i32 = 0;
            while c < cols
                invariant
                    0 <= r < rows,
                    0 <= c <= cols,
                    rows * cols <= MAX_SQUARES,
                    cells@.len() == r * cols + c,
                    forall|i: int|
                        0 <= i < cells@.len() ==> cells@[i] == walled_bits(
                            rows as int,
                            cols as int,
                            i / cols as int,
                            i % cols as int,
                        ),
                decreases cols - c,
            {
                let w: u32 = (if r > 0 { NORTH_WALL } else { 0u32 }) | (if c + 1 < cols {
                    EAST_WALL
                } else {
                    0u32
                }) | (if r + 1 < rows { SOUTH_WALL } else { 0u32 }) | (if c > 0 {
                    WEST_WALL
                } else {
                    0u32
                });
                proof {
                    lemma_index(Point { row: r, col: c }, rows as int, cols as int);
                }
                cells.push(w);
                c = c + 1;
            }
            assert(cells@.len() == (r + 1) * cols) by (nonlinear_arith)
                requires
                    cells@.len() == r * cols + cols,
            ;
            r = r + 1;
        }
        assert(cells@ =~= walled_grid(rows as int, cols as int));
        Maze { cells, rows, cols, offset }
    }

    pub fn rows(&self) -> (r: i32)
        ensures
            r == self@.rows,
    {
        self.rows
    }

    pub fn cols(&self) -> (c: i32)
        ensures
            c == self@.cols,
    {
        self.cols
    }

    pub fn offset(&self) -> (o: Offset)
        ensures
            o == self@.offset,
    {
        self.offset
    }

    pub fn in_bounds(&self, p: Point) -> (b: bool)
        ensures
            b == self@.in_bounds(p),
    {
        0 <= p.row && p.row < self.rows && 0 <= p.col && p.col < self.cols
    }

    /// The square at `p`; `p` must lie inside the grid.
    pub fn get(&self, p: Point) -> (v: u32)
        requires
            self@.wf(),
            self@.in_bounds(p),
        ensures
            v == self@.at(p),
    {
        proof {
            lemma_index(p, self.rows as int, self.cols as int);
        }
        self.cells[(p.row * self.cols + p.col) as usize]
    }

    /// Overwrites the square at `p`.
    pub fn set(&mut self, p: Point, v: u32)
        requires
            old(self)@.wf(),
            old(self)@.in_bounds(p),
        ensures
            final(self)@.wf(),
            final(self)@.same_shape(old(self)@),
            final(self)@.cells == old(self)@.cells.update(old(self)@.idx(p), v),
    {
        proof {
            lemma_index(p, self.rows as int, self.cols as int);
        }
        let i = (p.row * self.cols + p.col) as usize;
        self.cells.set(i, v);
    }

    /// Whether the square at `p` is solid wall rather than passage.
    pub fn wall_at(&self, p: Point) -> (b: bool)
        requires
            self@.wf(),
            self@.in_bounds(p),
        ensures
            b == !is_path(self@.at(p)),
    {
        !has_path(self.get(p))
    }

    /// Clears what a generation run or a solve session leaves in every
    /// square (markers, walk bits, paint, seen, start and finish), keeping
    /// walls, passages and tree membership.
    pub fn clear_scratch(&mut self)
        requires
            old(self)@.wf(),
        ensures
            final(self)@.wf(),
            final(self)@.same_shape(old(self)@),
            forall|i: int|
                0 <= i < old(self)@.cells.len() ==> view_of(#[trigger] final(self)@.cells[i])
                    == scrubbed(view_of(old(self)@.cells[i])),
    {
        let n = self.cells.len();
        let mut i: usize = 0;
        while i < n
            invariant
                n == old(self)@.cells.len(),
                self@.wf(),
                self@.same_shape(old(self)@),
                self@.cells.len() == n,
                0 <= i <= n,
                forall|k: int|
                    0 <= k < i ==> view_of(#[trigger] self@.cells[k]) == scrubbed(
                        view_of(old(self)@.cells[k]),
                    ),
                forall|k: int| i <= k < n ==> #[trigger] self@.cells[k] == old(self)@.cells[k],
            decreases n - i,
        {
            let c = self.cells[i];
            self.cells.set(i, crate::cell::clear_scratch(c));
            i = i + 1;
        }
    }
}

} // verus!

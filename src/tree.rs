//! The shape of the carved maze as a graph: cells joined by carved links.
//! A maze whose tree cells are all reachable from one root and which has
//! one link fewer than tree cells is a spanning tree of its cells.
use vstd::prelude::*;
use crate::cell::view_of;
use crate::maze::{MazeView, Point, lemma_index, lemma_dims};
use crate::wilson::{sq, is_cell, complete, carved, walls_only_elsewhere, same_but_walls};

verus! {

/// `q` is a wall square between two cells, in the same row or column.
pub open spec fn is_link(v: MazeView, q: Point) -> bool {
    &&& 1 <= q.row <= v.rows - 2
    &&& 1 <= q.col <= v.cols - 2
    &&& {
        ||| q.row % 2 == 1 && q.col % 2 == 0 && q.col + 1 <= v.cols - 2
        ||| q.row % 2 == 0 && q.col % 2 == 1 && q.row + 1 <= v.rows - 2
    }
}

/// The cell above, or to the left of, a link.
pub open spec fn end_a(q: Point) -> Point {
    if q.row % 2 == 1 {
        Point { row: q.row, col: (q.col - 1) as i32 }
    } else {
        Point { row: (q.row - 1) as i32, col: q.col }
    }
}

/// The cell below, or to the right of, a link.
pub open spec fn end_b(q: Point) -> Point {
    if q.row % 2 == 1 {
        Point { row: q.row, col: (q.col + 1) as i32 }
    } else {
        Point { row: (q.row + 1) as i32, col: q.col }
    }
}

/// `l` is the link between the cells `a` and `b`.
pub open spec fn joins(v: MazeView, l: Point, a: Point, b: Point) -> bool {
    &&& is_link(v, l)
    &&& (end_a(l) == a && end_b(l) == b) || (end_a(l) == b && end_b(l) == a)
}

/// Only cells and links are ever passages, and a carved link joins two
/// tree cells.
pub open spec fn links_ok(v: MazeView) -> bool {
    forall|q: Point|
        v.in_bounds(q) ==> {
            let c = #[trigger] sq(v, q);
            &&& !is_cell(v, q) && !is_link(v, q) ==> !c.path
            &&& is_link(v, q) && c.path ==> sq(v, end_a(q)).built && sq(v, end_b(q)).built
        }
}

/// The point of the grid at index `i`.
pub open spec fn pt(v: MazeView, i: int) -> Point {
    Point { row: (i / v.cols) as i32, col: (i % v.cols) as i32 }
}

/// The indices of the tree cells.
pub open spec fn tree_cells(v: MazeView) -> Set<int> {
    Set::new(|i: int| 0 <= i < v.cells.len() && is_cell(v, pt(v, i)) && view_of(v.cells[i]).built)
}

/// The indices of all cells.
pub open spec fn all_cells(v: MazeView) -> Set<int> {
    Set::new(|i: int| 0 <= i < v.cells.len() && is_cell(v, pt(v, i)))
}

/// The indices of the carved links.
pub open spec fn open_links(v: MazeView) -> Set<int> {
    Set::new(|i: int| 0 <= i < v.cells.len() && is_link(v, pt(v, i)) && view_of(v.cells[i]).path)
}

pub open spec fn adjacent(a: Point, b: Point) -> bool {
    ||| a.row == b.row && (a.col - b.col == 1 || b.col - a.col == 1)
    ||| a.col == b.col && (a.row - b.row == 1 || b.row - a.row == 1)
}

/// A route: passage squares, each next to the one before.
pub open spec fn is_route(v: MazeView, s: Seq<Point>) -> bool {
    &&& s.len() >= 1
    &&& forall|i: int| 0 <= i < s.len() ==> v.in_bounds(#[trigger] s[i]) && sq(v, s[i]).path
    &&& forall|i: int| 0 <= i < s.len() - 1 ==> adjacent(#[trigger] s[i], s[i + 1])
}

pub open spec fn reachable(v: MazeView, a: Point, b: Point) -> bool {
    exists|s: Seq<Point>| is_route(v, s) && s[0] == a && s.last() == b
}

/// Every tree cell can be reached from `root` through passages.
pub open spec fn connected(v: MazeView, root: Point) -> bool {
    forall|q: Point| is_cell(v, q) && (#[trigger] sq(v, q)).built ==> reachable(v, root, q)
}

/// The carved maze is a tree over its tree cells, rooted at `root`.
pub open spec fn tree_shape(v: MazeView, root: Point) -> bool {
    &&& links_ok(v)
    &&& tree_cells(v).len() == open_links(v).len() + 1
    &&& connected(v, root)
}

/// The carved maze is a tree over its tree cells, from some root.
pub open spec fn spanning_tree(v: MazeView) -> bool {
    exists|root: Point| tree_shape(v, root)
}

/// The index of a point, and the point of an index.
pub proof fn lemma_pt(v: MazeView, q: Point)
    requires
        v.wf(),
        v.in_bounds(q),
    ensures
        pt(v, v.idx(q)) == q,
        0 <= v.idx(q) < v.cells.len(),
{
    lemma_index(q, v.rows, v.cols);
}

pub proof fn lemma_pt_back(v: MazeView, i: int)
    requires
        v.wf(),
        0 <= i < v.cells.len(),
    ensures
        v.in_bounds(pt(v, i)),
        v.idx(pt(v, i)) == i,
{
    lemma_dims(v);
    vstd::arithmetic::div_mod::lemma_fundamental_div_mod(i, v.cols);
    assert(0 <= i / v.cols < v.rows) by {
        vstd::arithmetic::div_mod::lemma_div_is_ordered(i, v.rows * v.cols - 1, v.cols);
        vstd::arithmetic::div_mod::lemma_div_multiples_vanish_fancy(v.rows - 1, v.cols - 1, v.cols);
        vstd::arithmetic::div_mod::lemma_div_pos_is_pos(i, v.cols);
        assert((v.rows - 1) * v.cols + v.cols - 1 == v.rows * v.cols - 1) by (nonlinear_arith);
    }
    vstd::arithmetic::div_mod::lemma_mod_pos_bound(i, v.cols);
    let q = pt(v, i);
    assert(q.row as int == i / v.cols);
    assert(q.col as int == i % v.cols);
    assert((i / v.cols) * v.cols == v.cols * (i / v.cols)) by (nonlinear_arith);
}

/// The index sets are finite.
pub proof fn lemma_sets_finite(v: MazeView)
    ensures
        tree_cells(v).finite(),
        open_links(v).finite(),
        all_cells(v).finite(),
        tree_cells(v).subset_of(all_cells(v)),
{
    vstd::set_lib::lemma_int_range(0, v.cells.len() as int);
    let r = vstd::set_lib::set_int_range(0, v.cells.len() as int);
    assert(tree_cells(v).subset_of(r));
    assert(open_links(v).subset_of(r));
    assert(all_cells(v).subset_of(r));
    vstd::set_lib::lemma_len_subset(tree_cells(v), r);
    vstd::set_lib::lemma_len_subset(open_links(v), r);
    vstd::set_lib::lemma_len_subset(all_cells(v), r);
}

/// Grids that agree in which squares are passages and which cells are in
/// the tree have the same tree shape.
pub proof fn lemma_same_flags(a: MazeView, b: MazeView, root: Point)
    requires
        a.wf(),
        b.wf(),
        b.same_shape(a),
        forall|q: Point|
            a.in_bounds(q) ==> (#[trigger] sq(b, q)).path == sq(a, q).path && sq(b, q).built
                == sq(a, q).built,
        tree_shape(a, root),
    ensures
        tree_shape(b, root),
{
    assert(tree_cells(a) =~= tree_cells(b)) by {
        assert forall|i: int| tree_cells(a).contains(i) <==> tree_cells(b).contains(i) by {
            if 0 <= i < a.cells.len() {
                lemma_pt_back(a, i);
                assert(sq(b, pt(a, i)).built == sq(a, pt(a, i)).built);
            }
        }
    }
    assert(open_links(a) =~= open_links(b)) by {
        assert forall|i: int| open_links(a).contains(i) <==> open_links(b).contains(i) by {
            if 0 <= i < a.cells.len() {
                lemma_pt_back(a, i);
                assert(sq(b, pt(a, i)).path == sq(a, pt(a, i)).path);
            }
        }
    }
    assert forall|q: Point| b.in_bounds(q) implies {
        let c = #[trigger] sq(b, q);
        &&& !is_cell(b, q) && !is_link(b, q) ==> !c.path
        &&& is_link(b, q) && c.path ==> sq(b, end_a(q)).built && sq(b, end_b(q)).built
    } by {
        assert(sq(a, q) == sq(a, q));
        if is_link(b, q) {
            assert(sq(a, end_a(q)) == sq(a, end_a(q)));
            assert(sq(a, end_b(q)) == sq(a, end_b(q)));
        }
    }
    assert forall|q: Point| is_cell(b, q) && (#[trigger] sq(b, q)).built implies reachable(
        b,
        root,
        q,
    ) by {
        assert(sq(a, q) == sq(a, q));
        let s = choose|s: Seq<Point>| is_route(a, s) && s[0] == root && s.last() == q;
        lemma_route_grows(a, b, s);
    }
}

/// A route stays a route when passages are only added.
pub proof fn lemma_route_grows(a: MazeView, b: MazeView, s: Seq<Point>)
    requires
        is_route(a, s),
        b.same_shape(a),
        forall|q: Point| a.in_bounds(q) && sq(a, q).path ==> (#[trigger] sq(b, q)).path,
    ensures
        is_route(b, s),
{
    assert forall|i: int| 0 <= i < s.len() implies b.in_bounds(#[trigger] s[i]) && sq(
        b,
        s[i],
    ).path by {
        assert(sq(a, s[i]).path);
    }
}

/// A route extended by a passage next to its end is a route.
pub proof fn lemma_route_push(v: MazeView, s: Seq<Point>, p: Point)
    requires
        is_route(v, s),
        v.in_bounds(p),
        sq(v, p).path,
        adjacent(s.last(), p),
    ensures
        is_route(v, s.push(p)),
        s.push(p)[0] == s[0],
        s.push(p).last() == p,
{
    let t = s.push(p);
    assert forall|i: int| 0 <= i < t.len() implies v.in_bounds(#[trigger] t[i]) && sq(
        v,
        t[i],
    ).path by {
        if i < s.len() {
            assert(t[i] == s[i]);
        }
    }
    assert forall|i: int| 0 <= i < t.len() - 1 implies adjacent(#[trigger] t[i], t[i + 1]) by {
        if i < s.len() - 1 {
            assert(t[i] == s[i] && t[i + 1] == s[i + 1]);
        } else {
            assert(t[i] == s.last());
        }
    }
}

/// A route walked backwards is a route.
pub proof fn lemma_route_reverse(v: MazeView, s: Seq<Point>)
    requires
        is_route(v, s),
    ensures
        is_route(v, s.reverse()),
        s.reverse()[0] == s.last(),
        s.reverse().last() == s[0],
{
    let t = s.reverse();
    let n = s.len();
    assert forall|i: int| 0 <= i < t.len() implies v.in_bounds(#[trigger] t[i]) && sq(
        v,
        t[i],
    ).path by {
        assert(t[i] == s[n - 1 - i]);
    }
    assert forall|i: int| 0 <= i < t.len() - 1 implies adjacent(#[trigger] t[i], t[i + 1]) by {
        assert(t[i] == s[n - 1 - i]);
        assert(t[i + 1] == s[n - 2 - i]);
        assert(adjacent(s[n - 2 - i], s[n - 1 - i]));
    }
}

/// Two routes that meet at an end join into one.
pub proof fn lemma_route_join(v: MazeView, s: Seq<Point>, t: Seq<Point>)
    requires
        is_route(v, s),
        is_route(v, t),
        s.last() == t[0],
    ensures
        is_route(v, s + t.drop_first()),
        (s + t.drop_first())[0] == s[0],
        (s + t.drop_first()).last() == t.last(),
{
    let u = s + t.drop_first();
    let n = s.len();
    assert forall|i: int| 0 <= i < u.len() implies v.in_bounds(#[trigger] u[i]) && sq(
        v,
        u[i],
    ).path by {
        if i < n {
            assert(u[i] == s[i]);
        } else {
            assert(u[i] == t[i - n + 1]);
        }
    }
    assert forall|i: int| 0 <= i < u.len() - 1 implies adjacent(#[trigger] u[i], u[i + 1]) by {
        if i < n - 1 {
            assert(u[i] == s[i] && u[i + 1] == s[i + 1]);
        } else if i == n - 1 {
            assert(u[i] == s.last());
            assert(u[i + 1] == t[1]);
            assert(adjacent(t[0], t[1]));
        } else {
            assert(u[i] == t[i - n + 1] && u[i + 1] == t[i - n + 2]);
        }
    }
    if t.len() == 1 {
        assert(u.last() == s.last());
    } else {
        assert(u.last() == t[t.len() - 1]);
    }
}

/// A completed maze of tree shape is a spanning tree of its cells: any
/// cell can be reached from any other through passages, and there is
/// exactly one carved link fewer than there are cells.
pub proof fn lemma_spanning_tree(v: MazeView)
    requires
        v.wf(),
        complete(v),
        spanning_tree(v),
    ensures
        forall|a: Point, b: Point|
            is_cell(v, a) && is_cell(v, b) ==> #[trigger] reachable(v, a, b),
        open_links(v).len() + 1 == all_cells(v).len(),
{
    let root = choose|root: Point| tree_shape(v, root);
    assert(tree_cells(v) =~= all_cells(v)) by {
        assert forall|i: int| all_cells(v).contains(i) implies tree_cells(v).contains(i) by {
            lemma_pt_back(v, i);
            assert(sq(v, pt(v, i)).built);
        }
    }
    assert forall|a: Point, b: Point| is_cell(v, a) && is_cell(v, b) implies #[trigger] reachable(
        v,
        a,
        b,
    ) by {
        assert(sq(v, a).built);
        assert(sq(v, b).built);
        let s = choose|s: Seq<Point>| is_route(v, s) && s[0] == root && s.last() == a;
        let t = choose|t: Seq<Point>| is_route(v, t) && t[0] == root && t.last() == b;
        lemma_route_reverse(v, s);
        lemma_route_join(v, s.reverse(), t);
    }
}

/// The two ends of a link are cells next to it, and it is no cell itself.
pub proof fn lemma_link_ends(v: MazeView, l: Point)
    requires
        v.wf(),
        is_link(v, l),
    ensures
        is_cell(v, end_a(l)),
        is_cell(v, end_b(l)),
        !is_cell(v, l),
        v.in_bounds(l),
        adjacent(end_a(l), l),
        adjacent(l, end_a(l)),
        adjacent(end_b(l), l),
        adjacent(l, end_b(l)),
{
    lemma_dims(v);
}

/// Carving a cell outside the tree adds it to the tree and no link.
pub proof fn lemma_carve_cell_shape(a: MazeView, b: MazeView, c: Point)
    requires
        a.wf(),
        a.in_bounds(c),
        is_cell(a, c),
        !sq(a, c).built,
        walls_only_elsewhere(a, b, c),
        sq(b, c) == carved(sq(a, c), true),
    ensures
        !tree_cells(a).contains(a.idx(c)),
        tree_cells(b) == tree_cells(a).insert(a.idx(c)),
        open_links(b) == open_links(a),
{
    lemma_pt(a, c);
    assert(tree_cells(b) =~= tree_cells(a).insert(a.idx(c))) by {
        assert forall|i: int| #[trigger] tree_cells(b).contains(i) <==> tree_cells(a).insert(
            a.idx(c),
        ).contains(i) by {
            if 0 <= i < a.cells.len() {
                lemma_pt_back(a, i);
                if i != a.idx(c) {
                    assert(same_but_walls(sq(a, pt(a, i)), sq(b, pt(a, i))));
                }
            }
        }
    }
    assert(open_links(b) =~= open_links(a)) by {
        assert forall|i: int| #[trigger] open_links(b).contains(i) <==> open_links(a).contains(
            i,
        ) by {
            if 0 <= i < a.cells.len() {
                lemma_pt_back(a, i);
                if i != a.idx(c) {
                    assert(same_but_walls(sq(a, pt(a, i)), sq(b, pt(a, i))));
                }
            }
        }
    }
}

/// Carving a link that was a wall adds it to the links and no cell.
pub proof fn lemma_carve_link_shape(a: MazeView, b: MazeView, l: Point)
    requires
        a.wf(),
        is_link(a, l),
        !sq(a, l).path,
        walls_only_elsewhere(a, b, l),
        sq(b, l) == carved(sq(a, l), false),
    ensures
        !open_links(a).contains(a.idx(l)),
        open_links(b) == open_links(a).insert(a.idx(l)),
        tree_cells(b) == tree_cells(a),
{
    lemma_link_ends(a, l);
    lemma_pt(a, l);
    assert(open_links(b) =~= open_links(a).insert(a.idx(l))) by {
        assert forall|i: int| #[trigger] open_links(b).contains(i) <==> open_links(a).insert(
            a.idx(l),
        ).contains(i) by {
            if 0 <= i < a.cells.len() {
                lemma_pt_back(a, i);
                if i != a.idx(l) {
                    assert(same_but_walls(sq(a, pt(a, i)), sq(b, pt(a, i))));
                }
            }
        }
    }
    assert(tree_cells(b) =~= tree_cells(a)) by {
        assert forall|i: int| #[trigger] tree_cells(b).contains(i) <==> tree_cells(a).contains(
            i,
        ) by {
            if 0 <= i < a.cells.len() {
                lemma_pt_back(a, i);
                if i != a.idx(l) {
                    assert(same_but_walls(sq(a, pt(a, i)), sq(b, pt(a, i))));
                }
            }
        }
    }
}

/// Carving a cell `c` outside the tree and then the link `l` that joins it
/// to the tree cell `s` keeps the tree shape.
pub proof fn lemma_attach_shape(
    v: MazeView,
    v1: MazeView,
    v2: MazeView,
    c: Point,
    l: Point,
    s: Point,
    root: Point,
)
    requires
        v.wf(),
        tree_shape(v, root),
        is_cell(v, c),
        !sq(v, c).built,
        is_cell(v, s),
        sq(v, s).built,
        joins(v, l, c, s),
        walls_only_elsewhere(v, v1, c),
        sq(v1, c) == carved(sq(v, c), true),
        walls_only_elsewhere(v1, v2, l),
        sq(v2, l) == carved(sq(v1, l), false),
    ensures
        tree_shape(v2, root),
        !sq(v, l).path,
        tree_cells(v2).len() == tree_cells(v).len() + 1,
{
    lemma_link_ends(v, l);
    lemma_dims(v);
    assert(v.in_bounds(c) && v.in_bounds(s));
    assert(sq(v, l) == sq(v, l));
    assert(same_but_walls(sq(v, l), sq(v1, l)));
    lemma_carve_cell_shape(v, v1, c);
    lemma_carve_link_shape(v1, v2, l);
    lemma_sets_finite(v);
    lemma_pt(v, c);
    lemma_pt(v1, l);
    assert(forall|q: Point| #[trigger] sq(v2, q) == sq(v2, q));
    assert forall|q: Point| v2.in_bounds(q) implies {
        let k = #[trigger] sq(v2, q);
        &&& !is_cell(v2, q) && !is_link(v2, q) ==> !k.path
        &&& is_link(v2, q) && k.path ==> sq(v2, end_a(q)).built && sq(v2, end_b(q)).built
    } by {
        assert(sq(v, q) == sq(v, q));
        if q != c && q != l {
            assert(same_but_walls(sq(v, q), sq(v1, q)));
            assert(same_but_walls(sq(v1, q), sq(v2, q)));
        }
        if is_link(v2, q) && q != l {
            lemma_link_ends(v, q);
            let ea = end_a(q);
            let eb = end_b(q);
            assert(sq(v, ea) == sq(v, ea));
            assert(sq(v, eb) == sq(v, eb));
            if ea != c {
                assert(same_but_walls(sq(v, ea), sq(v1, ea)));
            }
            if ea != l {
                assert(same_but_walls(sq(v1, ea), sq(v2, ea)));
            }
            if eb != c {
                assert(same_but_walls(sq(v, eb), sq(v1, eb)));
            }
            if eb != l {
                assert(same_but_walls(sq(v1, eb), sq(v2, eb)));
            }
        }
        if q == l {
            assert(same_but_walls(sq(v1, c), sq(v2, c)));
            assert(same_but_walls(sq(v, s), sq(v1, s)));
            assert(same_but_walls(sq(v1, s), sq(v2, s)));
        }
    }
    assert forall|q: Point| v.in_bounds(q) && sq(v, q).path implies (#[trigger] sq(v2, q)).path by {
        if q != c && q != l {
            assert(same_but_walls(sq(v, q), sq(v1, q)));
            assert(same_but_walls(sq(v1, q), sq(v2, q)));
        } else if q == c {
            assert(same_but_walls(sq(v1, c), sq(v2, c)));
        }
    }
    assert forall|q: Point| is_cell(v2, q) && (#[trigger] sq(v2, q)).built implies reachable(
        v2,
        root,
        q,
    ) by {
        if q == c {
            assert(sq(v, s) == sq(v, s));
            let r = choose|r: Seq<Point>| is_route(v, r) && r[0] == root && r.last() == s;
            lemma_route_grows(v, v2, r);
            assert(same_but_walls(sq(v1, c), sq(v2, c)));
            lemma_route_push(v2, r, l);
            lemma_route_push(v2, r.push(l), c);
        } else {
            assert(sq(v, q) == sq(v, q));
            assert(same_but_walls(sq(v, q), sq(v1, q)));
            if q != l {
                assert(same_but_walls(sq(v1, q), sq(v2, q)));
            }
            let r = choose|r: Seq<Point>| is_route(v, r) && r[0] == root && r.last() == q;
            lemma_route_grows(v, v2, r);
        }
    }
}

} // verus!

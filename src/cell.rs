//! Bit layout of one grid square and the operations that touch its fields.
//!
//! A square is a `u32`. From the lowest bit up:
//! four wall bits, a four-bit arrival marker, four paint bits (one per
//! worker), four seen bits (one per worker), then start, finish, walk,
//! builder and path flags. The bit groups are disjoint.
use vstd::prelude::*;

verus! {

pub const NORTH_WALL: u32 = 0b0001;
pub const EAST_WALL: u32 = 0b0010;
pub const SOUTH_WALL: u32 = 0b0100;
pub const WEST_WALL: u32 = 0b1000;
pub const WALL_MASK: u32 = 0b1111;

pub const MARKERS_MASK: u32 = 0xF0;
pub const MARKER_SHIFT: u32 = 4;
pub const FROM_NORTH: u32 = 1;
pub const FROM_EAST: u32 = 2;
pub const FROM_SOUTH: u32 = 3;
pub const FROM_WEST: u32 = 4;

pub const PAINT_MASK: u32 = 0xF00;
pub const PAINT_SHIFT: u32 = 8;
pub const CACHE_MASK: u32 = 0xF000;
pub const CACHE_SHIFT: u32 = 12;
/// Distance from a worker's paint bit to its seen bit.
pub const THREAD_TAG_OFFSET: u32 = 4;
/// Number of workers that can hold a private pair of bits.
pub const NUM_THREADS: usize = 4;

pub const START_BIT: u32 = 0x1_0000;
pub const FINISH_BIT: u32 = 0x2_0000;
pub const WALK_BIT: u32 = 0x4_0000;
pub const BUILDER_BIT: u32 = 0x8_0000;
pub const PATH_BIT: u32 = 0x10_0000;
pub const UNUSED_MASK: u32 = 0xFFE0_0000;

/// The fields of a square, read out of its bits.
pub struct CellView {
    pub walls: u32,
    pub marker: u32,
    pub paint: u32,
    pub seen: u32,
    pub start: bool,
    pub finish: bool,
    pub walk: bool,
    pub built: bool,
    pub path: bool,
    pub rest: u32,
}

pub open spec fn view_of(c: u32) -> CellView {
    CellView {
        walls: c & WALL_MASK,
        marker: (c & MARKERS_MASK) >> MARKER_SHIFT,
        paint: (c & PAINT_MASK) >> PAINT_SHIFT,
        seen: (c & CACHE_MASK) >> CACHE_SHIFT,
        start: c & START_BIT != 0,
        finish: c & FINISH_BIT != 0,
        walk: c & WALK_BIT != 0,
        built: c & BUILDER_BIT != 0,
        path: c & PATH_BIT != 0,
        rest: c & UNUSED_MASK,
    }
}

/// The bit that a worker paints with, within the paint field.
pub open spec fn thread_bit(t: usize) -> u32 {
    (1u32 << t as u32)
}

pub open spec fn is_path(c: u32) -> bool {
    view_of(c).path
}

pub open spec fn is_built(c: u32) -> bool {
    view_of(c).built
}

pub open spec fn is_walk(c: u32) -> bool {
    view_of(c).walk
}

pub open spec fn is_finish(c: u32) -> bool {
    view_of(c).finish
}

pub open spec fn marker_of(c: u32) -> u32 {
    view_of(c).marker
}

/// Whether worker `t` has visited the square.
pub open spec fn seen_by(c: u32, t: usize) -> bool {
    view_of(c).seen & thread_bit(t) != 0
}

/// The square joins the current random walk.
pub fn add_walk(c: u32) -> (r: u32)
    ensures
        view_of(r) == (CellView { walk: true, ..view_of(c) }),
{
    let r = c | WALK_BIT;
    assert(
        (r & WALL_MASK) == (c & WALL_MASK)
        && ((r & MARKERS_MASK) >> MARKER_SHIFT) == ((c & MARKERS_MASK) >> MARKER_SHIFT)
        && ((r & PAINT_MASK) >> PAINT_SHIFT) == ((c & PAINT_MASK) >> PAINT_SHIFT)
        && ((r & CACHE_MASK) >> CACHE_SHIFT) == ((c & CACHE_MASK) >> CACHE_SHIFT)
        && (r & START_BIT != 0) == (c & START_BIT != 0)
        && (r & FINISH_BIT != 0) == (c & FINISH_BIT != 0)
        && (r & WALK_BIT != 0) == (true)
        && (r & BUILDER_BIT != 0) == (c & BUILDER_BIT != 0)
        && (r & PATH_BIT != 0) == (c & PATH_BIT != 0)
        && (r & UNUSED_MASK) == (c & UNUSED_MASK)
    ) by (bit_vector)
        requires
            r == c | WALK_BIT,
    ;
    r
}

/// The square leaves the current random walk: walk bit and marker cleared.
pub fn erase_walk(c: u32) -> (r: u32)
    ensures
        view_of(r) == (CellView { walk: false, marker: 0, ..view_of(c) }),
{
    let r = c & !WALK_BIT & !MARKERS_MASK;
    assert(
        (r & WALL_MASK) == (c & WALL_MASK)
        && ((r & MARKERS_MASK) >> MARKER_SHIFT) == (0u32)
        && ((r & PAINT_MASK) >> PAINT_SHIFT) == ((c & PAINT_MASK) >> PAINT_SHIFT)
        && ((r & CACHE_MASK) >> CACHE_SHIFT) == ((c & CACHE_MASK) >> CACHE_SHIFT)
        && (r & START_BIT != 0) == (c & START_BIT != 0)
        && (r & FINISH_BIT != 0) == (c & FINISH_BIT != 0)
        && (r & WALK_BIT != 0) == (false)
        && (r & BUILDER_BIT != 0) == (c & BUILDER_BIT != 0)
        && (r & PATH_BIT != 0) == (c & PATH_BIT != 0)
        && (r & UNUSED_MASK) == (c & UNUSED_MASK)
    ) by (bit_vector)
        requires
            r == c & !WALK_BIT & !MARKERS_MASK,
    ;
    r
}

/// The walk enters the square; `m` records the direction it came from.
pub fn mark_origin(c: u32, m: u32) -> (r: u32)
    requires
        1 <= m <= 4,
    ensures
        view_of(r) == (CellView { walk: true, marker: m, ..view_of(c) }),
{
    let r = (c & !MARKERS_MASK) | (m << MARKER_SHIFT) | WALK_BIT;
    assert(
        (r & WALL_MASK) == (c & WALL_MASK)
        && ((r & MARKERS_MASK) >> MARKER_SHIFT) == (m)
        && ((r & PAINT_MASK) >> PAINT_SHIFT) == ((c & PAINT_MASK) >> PAINT_SHIFT)
        && ((r & CACHE_MASK) >> CACHE_SHIFT) == ((c & CACHE_MASK) >> CACHE_SHIFT)
        && (r & START_BIT != 0) == (c & START_BIT != 0)
        && (r & FINISH_BIT != 0) == (c & FINISH_BIT != 0)
        && (r & WALK_BIT != 0) == (true)
        && (r & BUILDER_BIT != 0) == (c & BUILDER_BIT != 0)
        && (r & PATH_BIT != 0) == (c & PATH_BIT != 0)
        && (r & UNUSED_MASK) == (c & UNUSED_MASK)
    ) by (bit_vector)
        requires
            r == (c & !MARKERS_MASK) | (m << MARKER_SHIFT) | WALK_BIT,
            1 <= m <= 4,
    ;
    r
}

/// Sets the arrival marker of the square to `m`; zero clears it.
pub fn set_marker(c: u32, m: u32) -> (r: u32)
    requires
        m <= 4,
    ensures
        view_of(r) == (CellView { marker: m, ..view_of(c) }),
{
    let r = (c & !MARKERS_MASK) | (m << MARKER_SHIFT);
    assert(
        (r & WALL_MASK) == (c & WALL_MASK)
        && ((r & MARKERS_MASK) >> MARKER_SHIFT) == (m)
        && ((r & PAINT_MASK) >> PAINT_SHIFT) == ((c & PAINT_MASK) >> PAINT_SHIFT)
        && ((r & CACHE_MASK) >> CACHE_SHIFT) == ((c & CACHE_MASK) >> CACHE_SHIFT)
        && (r & START_BIT != 0) == (c & START_BIT != 0)
        && (r & FINISH_BIT != 0) == (c & FINISH_BIT != 0)
        && (r & WALK_BIT != 0) == (c & WALK_BIT != 0)
        && (r & BUILDER_BIT != 0) == (c & BUILDER_BIT != 0)
        && (r & PATH_BIT != 0) == (c & PATH_BIT != 0)
        && (r & UNUSED_MASK) == (c & UNUSED_MASK)
    ) by (bit_vector)
        requires
            r == (c & !MARKERS_MASK) | (m << MARKER_SHIFT),
            m <= 4,
    ;
    r
}

/// The square is absorbed into the tree as a passage: path and builder set,
/// walls, walk bit and marker cleared.
pub fn carve(c: u32) -> (r: u32)
    ensures
        view_of(r) == (CellView {
            walls: 0,
            marker: 0,
            walk: false,
            built: true,
            path: true,
            ..view_of(c)
        }),
{
    let r = (c & !WALL_MASK & !MARKERS_MASK & !WALK_BIT) | BUILDER_BIT | PATH_BIT;
    assert(
        (r & WALL_MASK) == (0u32)
        && ((r & MARKERS_MASK) >> MARKER_SHIFT) == (0u32)
        && ((r & PAINT_MASK) >> PAINT_SHIFT) == ((c & PAINT_MASK) >> PAINT_SHIFT)
        && ((r & CACHE_MASK) >> CACHE_SHIFT) == ((c & CACHE_MASK) >> CACHE_SHIFT)
        && (r & START_BIT != 0) == (c & START_BIT != 0)
        && (r & FINISH_BIT != 0) == (c & FINISH_BIT != 0)
        && (r & WALK_BIT != 0) == (false)
        && (r & BUILDER_BIT != 0) == (true)
        && (r & PATH_BIT != 0) == (true)
        && (r & UNUSED_MASK) == (c & UNUSED_MASK)
    ) by (bit_vector)
        requires
            r == (c & !WALL_MASK & !MARKERS_MASK & !WALK_BIT) | BUILDER_BIT | PATH_BIT,
    ;
    r
}

/// The square becomes a passage without joining the tree: path set, walls cleared.
pub fn open(c: u32) -> (r: u32)
    ensures
        view_of(r) == (CellView { walls: 0, path: true, ..view_of(c) }),
{
    let r = (c & !WALL_MASK) | PATH_BIT;
    assert(
        (r & WALL_MASK) == (0u32)
        && ((r & MARKERS_MASK) >> MARKER_SHIFT) == ((c & MARKERS_MASK) >> MARKER_SHIFT)
        && ((r & PAINT_MASK) >> PAINT_SHIFT) == ((c & PAINT_MASK) >> PAINT_SHIFT)
        && ((r & CACHE_MASK) >> CACHE_SHIFT) == ((c & CACHE_MASK) >> CACHE_SHIFT)
        && (r & START_BIT != 0) == (c & START_BIT != 0)
        && (r & FINISH_BIT != 0) == (c & FINISH_BIT != 0)
        && (r & WALK_BIT != 0) == (c & WALK_BIT != 0)
        && (r & BUILDER_BIT != 0) == (c & BUILDER_BIT != 0)
        && (r & PATH_BIT != 0) == (true)
        && (r & UNUSED_MASK) == (c & UNUSED_MASK)
    ) by (bit_vector)
        requires
            r == (c & !WALL_MASK) | PATH_BIT,
    ;
    r
}

/// Removes the wall bits in `w` from the square.
pub fn drop_wall(c: u32, w: u32) -> (r: u32)
    requires
        w <= WALL_MASK,
    ensures
        view_of(r) == (CellView { walls: view_of(c).walls & !w, ..view_of(c) }),
{
    let r = c & !w;
    assert(
        (r & WALL_MASK) == ((c & WALL_MASK) & !w)
        && ((r & MARKERS_MASK) >> MARKER_SHIFT) == ((c & MARKERS_MASK) >> MARKER_SHIFT)
        && ((r & PAINT_MASK) >> PAINT_SHIFT) == ((c & PAINT_MASK) >> PAINT_SHIFT)
        && ((r & CACHE_MASK) >> CACHE_SHIFT) == ((c & CACHE_MASK) >> CACHE_SHIFT)
        && (r & START_BIT != 0) == (c & START_BIT != 0)
        && (r & FINISH_BIT != 0) == (c & FINISH_BIT != 0)
        && (r & WALK_BIT != 0) == (c & WALK_BIT != 0)
        && (r & BUILDER_BIT != 0) == (c & BUILDER_BIT != 0)
        && (r & PATH_BIT != 0) == (c & PATH_BIT != 0)
        && (r & UNUSED_MASK) == (c & UNUSED_MASK)
    ) by (bit_vector)
        requires
            r == c & !w,
            w <= WALL_MASK,
    ;
    r
}

pub fn set_start(c: u32) -> (r: u32)
    ensures
        view_of(r) == (CellView { start: true, ..view_of(c) }),
{
    let r = c | START_BIT;
    assert(
        (r & WALL_MASK) == (c & WALL_MASK)
        && ((r & MARKERS_MASK) >> MARKER_SHIFT) == ((c & MARKERS_MASK) >> MARKER_SHIFT)
        && ((r & PAINT_MASK) >> PAINT_SHIFT) == ((c & PAINT_MASK) >> PAINT_SHIFT)
        && ((r & CACHE_MASK) >> CACHE_SHIFT) == ((c & CACHE_MASK) >> CACHE_SHIFT)
        && (r & START_BIT != 0) == (true)
        && (r & FINISH_BIT != 0) == (c & FINISH_BIT != 0)
        && (r & WALK_BIT != 0) == (c & WALK_BIT != 0)
        && (r & BUILDER_BIT != 0) == (c & BUILDER_BIT != 0)
        && (r & PATH_BIT != 0) == (c & PATH_BIT != 0)
        && (r & UNUSED_MASK) == (c & UNUSED_MASK)
    ) by (bit_vector)
        requires
            r == c | START_BIT,
    ;
    r
}

pub fn set_finish(c: u32) -> (r: u32)
    ensures
        view_of(r) == (CellView { finish: true, ..view_of(c) }),
{
    let r = c | FINISH_BIT;
    assert(
        (r & WALL_MASK) == (c & WALL_MASK)
        && ((r & MARKERS_MASK) >> MARKER_SHIFT) == ((c & MARKERS_MASK) >> MARKER_SHIFT)
        && ((r & PAINT_MASK) >> PAINT_SHIFT) == ((c & PAINT_MASK) >> PAINT_SHIFT)
        && ((r & CACHE_MASK) >> CACHE_SHIFT) == ((c & CACHE_MASK) >> CACHE_SHIFT)
        && (r & START_BIT != 0) == (c & START_BIT != 0)
        && (r & FINISH_BIT != 0) == (true)
        && (r & WALK_BIT != 0) == (c & WALK_BIT != 0)
        && (r & BUILDER_BIT != 0) == (c & BUILDER_BIT != 0)
        && (r & PATH_BIT != 0) == (c & PATH_BIT != 0)
        && (r & UNUSED_MASK) == (c & UNUSED_MASK)
    ) by (bit_vector)
        requires
            r == c | FINISH_BIT,
    ;
    r
}

/// Worker `t` visits the square: its seen bit and its paint bit are set.
pub fn visit(c: u32, t: usize) -> (r: u32)
    requires
        t < NUM_THREADS,
    ensures
        view_of(r) == (CellView {
            seen: view_of(c).seen | thread_bit(t),
            paint: view_of(c).paint | thread_bit(t),
            ..view_of(c)
        }),
{
    let s: u32 = t as u32;
    let r = c | (0x1100u32 << s);
    assert(
        (r & WALL_MASK) == (c & WALL_MASK)
        && ((r & MARKERS_MASK) >> MARKER_SHIFT) == ((c & MARKERS_MASK) >> MARKER_SHIFT)
        && ((r & PAINT_MASK) >> PAINT_SHIFT) == (((c & PAINT_MASK) >> PAINT_SHIFT) | (1u32 << s))
        && ((r & CACHE_MASK) >> CACHE_SHIFT) == (((c & CACHE_MASK) >> CACHE_SHIFT) | (1u32 << s))
        && (r & START_BIT != 0) == (c & START_BIT != 0)
        && (r & FINISH_BIT != 0) == (c & FINISH_BIT != 0)
        && (r & WALK_BIT != 0) == (c & WALK_BIT != 0)
        && (r & BUILDER_BIT != 0) == (c & BUILDER_BIT != 0)
        && (r & PATH_BIT != 0) == (c & PATH_BIT != 0)
        && (r & UNUSED_MASK) == (c & UNUSED_MASK)
    ) by (bit_vector)
        requires
            r == c | (0x1100u32 << s),
            s < 4,
    ;
    r
}

/// Worker `t` leaves the square: its paint bit is cleared, its seen bit stays.
pub fn unpaint(c: u32, t: usize) -> (r: u32)
    requires
        t < NUM_THREADS,
    ensures
        view_of(r) == (CellView { paint: view_of(c).paint & !thread_bit(t), ..view_of(c) }),
{
    let s: u32 = t as u32;
    let r = c & !(0x100u32 << s);
    assert(
        (r & WALL_MASK) == (c & WALL_MASK)
        && ((r & MARKERS_MASK) >> MARKER_SHIFT) == ((c & MARKERS_MASK) >> MARKER_SHIFT)
        && ((r & PAINT_MASK) >> PAINT_SHIFT) == (((c & PAINT_MASK) >> PAINT_SHIFT) & !(1u32 << s))
        && ((r & CACHE_MASK) >> CACHE_SHIFT) == ((c & CACHE_MASK) >> CACHE_SHIFT)
        && (r & START_BIT != 0) == (c & START_BIT != 0)
        && (r & FINISH_BIT != 0) == (c & FINISH_BIT != 0)
        && (r & WALK_BIT != 0) == (c & WALK_BIT != 0)
        && (r & BUILDER_BIT != 0) == (c & BUILDER_BIT != 0)
        && (r & PATH_BIT != 0) == (c & PATH_BIT != 0)
        && (r & UNUSED_MASK) == (c & UNUSED_MASK)
    ) by (bit_vector)
        requires
            r == c & !(0x100u32 << s),
            s < 4,
    ;
    r
}

/// Clears every field that a solve session or a generation run leaves
/// behind: marker, walk bit, paint, seen, start and finish.
pub fn clear_scratch(c: u32) -> (r: u32)
    ensures
        view_of(r) == (CellView {
            marker: 0,
            paint: 0,
            seen: 0,
            start: false,
            finish: false,
            walk: false,
            ..view_of(c)
        }),
{
    let r = c & !(MARKERS_MASK | PAINT_MASK | CACHE_MASK | START_BIT | FINISH_BIT | WALK_BIT);
    assert(
        (r & WALL_MASK) == (c & WALL_MASK)
        && ((r & MARKERS_MASK) >> MARKER_SHIFT) == (0u32)
        && ((r & PAINT_MASK) >> PAINT_SHIFT) == (0u32)
        && ((r & CACHE_MASK) >> CACHE_SHIFT) == (0u32)
        && (r & START_BIT != 0) == (false)
        && (r & FINISH_BIT != 0) == (false)
        && (r & WALK_BIT != 0) == (false)
        && (r & BUILDER_BIT != 0) == (c & BUILDER_BIT != 0)
        && (r & PATH_BIT != 0) == (c & PATH_BIT != 0)
        && (r & UNUSED_MASK) == (c & UNUSED_MASK)
    ) by (bit_vector)
        requires
            r == c & !(MARKERS_MASK | PAINT_MASK | CACHE_MASK | START_BIT | FINISH_BIT
                | WALK_BIT),
    ;
    r
}

pub fn has_path(c: u32) -> (r: bool)
    ensures
        r == is_path(c),
{
    c & PATH_BIT != 0
}

pub fn has_builder(c: u32) -> (r: bool)
    ensures
        r == is_built(c),
{
    c & BUILDER_BIT != 0
}

pub fn has_walk(c: u32) -> (r: bool)
    ensures
        r == is_walk(c),
{
    c & WALK_BIT != 0
}

pub fn has_finish(c: u32) -> (r: bool)
    ensures
        r == is_finish(c),
{
    c & FINISH_BIT != 0
}

pub fn has_start(c: u32) -> (r: bool)
    ensures
        r == view_of(c).start,
{
    c & START_BIT != 0
}

/// Whether any worker has visited the square.
pub fn any_seen(c: u32) -> (r: bool)
    ensures
        r == (view_of(c).seen != 0),
{
    let r = c & CACHE_MASK != 0;
    assert(r == ((c & CACHE_MASK) >> CACHE_SHIFT != 0)) by (bit_vector)
        requires
            r == (c & CACHE_MASK != 0),
    ;
    r
}

pub fn is_seen_by(c: u32, t: usize) -> (r: bool)
    requires
        t < NUM_THREADS,
    ensures
        r == seen_by(c, t),
{
    let s: u32 = t as u32;
    let r = c & (0x1000u32 << s) != 0;
    assert(r == (((c & CACHE_MASK) >> CACHE_SHIFT) & (1u32 << s) != 0)) by (bit_vector)
        requires
            r == (c & (0x1000u32 << s) != 0),
            s < 4,
    ;
    r
}

pub fn marker(c: u32) -> (r: u32)
    ensures
        r == marker_of(c),
        r < 16,
{
    let r = (c & MARKERS_MASK) >> MARKER_SHIFT;
    assert(r < 16) by (bit_vector)
        requires
            r == (c & MARKERS_MASK) >> MARKER_SHIFT,
    ;
    r
}

/// After a visit by `t`, the square counts as seen by `t` and by anyone.
pub proof fn lemma_visit_seen(c: u32, t: usize)
    requires
        t < NUM_THREADS,
    ensures
        (view_of(c).seen | thread_bit(t)) & thread_bit(t) != 0,
        (view_of(c).seen | thread_bit(t)) != 0,
{
    let s = t as u32;
    let v = view_of(c).seen;
    assert((v | (1u32 << s)) & (1u32 << s) != 0 && (v | (1u32 << s)) != 0) by (bit_vector)
        requires
            s < 4,
    ;
}

} // verus!

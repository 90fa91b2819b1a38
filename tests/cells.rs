use maze_race::cell::{
    add_walk, any_seen, carve, clear_scratch, drop_wall, erase_walk, has_builder, has_path,
    has_walk, is_seen_by, mark_origin, marker, open, set_finish, set_start, unpaint, visit,
    BUILDER_BIT, EAST_WALL, FROM_SOUTH, MARKERS_MASK, NORTH_WALL, PATH_BIT, WALK_BIT, WEST_WALL,
};

#[test]
fn walk_bits_come_and_go() {
    let c = NORTH_WALL | EAST_WALL;
    let w = add_walk(c);
    assert!(has_walk(w));
    assert_eq!(w, c | WALK_BIT);
    let m = mark_origin(w, FROM_SOUTH);
    assert_eq!(marker(m), FROM_SOUTH);
    assert_eq!(m & MARKERS_MASK, 0x30);
    let e = erase_walk(m);
    assert_eq!(e, c);
}

#[test]
fn carving_clears_walls_and_marks() {
    let c = mark_origin(NORTH_WALL | WEST_WALL, 2);
    let k = carve(c);
    assert_eq!(k, PATH_BIT | BUILDER_BIT);
    assert!(has_path(k) && has_builder(k) && !has_walk(k));
    assert_eq!(open(NORTH_WALL | WEST_WALL), PATH_BIT);
    assert_eq!(drop_wall(NORTH_WALL | WEST_WALL, WEST_WALL), NORTH_WALL);
}

#[test]
fn worker_bits_are_private() {
    let c = visit(PATH_BIT, 2);
    assert_eq!(c, PATH_BIT | 0x400 | 0x4000);
    assert!(is_seen_by(c, 2));
    assert!(!is_seen_by(c, 1));
    assert!(any_seen(c));
    assert!(!any_seen(PATH_BIT));
    let u = unpaint(c, 2);
    assert_eq!(u, PATH_BIT | 0x4000);
    assert!(is_seen_by(u, 2));
}

#[test]
fn clearing_keeps_topology() {
    let c = set_finish(set_start(visit(mark_origin(PATH_BIT | BUILDER_BIT | EAST_WALL, 4), 3)));
    assert_eq!(clear_scratch(c), PATH_BIT | BUILDER_BIT | EAST_WALL);
}

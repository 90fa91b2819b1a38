use maze_race::cell::{EAST_WALL, NORTH_WALL, PATH_BIT, SOUTH_WALL, WALL_MASK, WEST_WALL};
use maze_race::maze::{Maze, Offset, Point};
use maze_race::modify::{add_cross, build_path};

fn p(row: i32, col: i32) -> Point {
    Point { row, col }
}

#[test]
fn build_path_opens_one_square() {
    let mut m = Maze::new(3, 3, Offset { add_rows: 0, add_cols: 0 });
    build_path(&mut m, p(1, 1));
    assert_eq!(m.get(p(1, 1)), PATH_BIT);
    assert_eq!(m.get(p(0, 1)), EAST_WALL | WEST_WALL);
    assert_eq!(m.get(p(1, 0)), NORTH_WALL | SOUTH_WALL);
    assert_eq!(m.get(p(2, 1)), EAST_WALL | WEST_WALL);
    assert_eq!(m.get(p(1, 2)), NORTH_WALL | SOUTH_WALL);
    assert_eq!(m.get(p(0, 0)) & WALL_MASK, EAST_WALL | SOUTH_WALL);
}

#[test]
fn cross_runs_through_the_middle() {
    let mut m = Maze::new(9, 11, Offset { add_rows: 0, add_cols: 0 });
    add_cross(&mut m);
    let mut opened = Vec::new();
    for r in 0..9 {
        for c in 0..11 {
            if m.get(p(r, c)) & PATH_BIT != 0 {
                opened.push((r, c));
            }
        }
    }
    let mut expected = Vec::new();
    for r in 0..9 {
        for c in 0..11 {
            let row_arm = r == 4 && c > 1 && c < 9;
            let col_arm = (c == 5 || c == 6) && r > 1 && r < 7;
            if row_arm || col_arm {
                expected.push((r, c));
            }
        }
    }
    assert_eq!(opened, expected);
}

use maze_race::cell::{
    BUILDER_BIT, MARKERS_MASK, PATH_BIT, WALK_BIT, WALL_MASK, NORTH_WALL, EAST_WALL, SOUTH_WALL,
    WEST_WALL,
};
use maze_race::maze::{Maze, Offset, Point};
use maze_race::tape::Tape;
use maze_race::wilson::{generate_history, generate_maze, RandomWalk};
use rand::rngs::StdRng;
use rand::SeedableRng;
use std::sync::atomic::AtomicBool;

fn origin() -> Offset {
    Offset { add_rows: 0, add_cols: 0 }
}

fn at(m: &Maze, row: i32, col: i32) -> u32 {
    m.get(Point { row, col })
}

fn is_passage(m: &Maze, row: i32, col: i32) -> bool {
    at(m, row, col) & PATH_BIT != 0
}

/// Cells reachable from (1, 1) through passages, and the number of carved
/// wall squares between two cells.
fn survey(m: &Maze) -> (usize, usize, usize) {
    let rows = m.rows();
    let cols = m.cols();
    let mut cells = 0;
    let mut connections = 0;
    for r in (1..rows - 1).step_by(2) {
        for c in (1..cols - 1).step_by(2) {
            cells += 1;
            if c + 2 < cols - 1 && is_passage(m, r, c + 1) {
                connections += 1;
            }
            if r + 2 < rows - 1 && is_passage(m, r + 1, c) {
                connections += 1;
            }
        }
    }
    let mut seen = vec![false; (rows * cols) as usize];
    let mut stack = vec![(1, 1)];
    seen[(cols + 1) as usize] = true;
    let mut reached = 0;
    while let Some((r, c)) = stack.pop() {
        if r % 2 == 1 && c % 2 == 1 {
            reached += 1;
        }
        for (dr, dc) in [(-1, 0), (1, 0), (0, -1), (0, 1)] {
            let (nr, nc) = (r + dr, c + dc);
            if nr < 0 || nc < 0 || nr >= rows || nc >= cols {
                continue;
            }
            let i = (nr * cols + nc) as usize;
            if !seen[i] && is_passage(m, nr, nc) {
                seen[i] = true;
                stack.push((nr, nc));
            }
        }
    }
    (cells, reached, connections)
}

fn no_walk_marks(m: &Maze) -> bool {
    for r in 0..m.rows() {
        for c in 0..m.cols() {
            let v = at(m, r, c);
            if v & WALK_BIT != 0 || v & MARKERS_MASK != 0 {
                return false;
            }
        }
    }
    true
}

#[test]
fn new_grid_is_fully_walled() {
    let m = Maze::new(3, 4, origin());
    assert_eq!(m.rows(), 3);
    assert_eq!(m.cols(), 4);
    assert_eq!(at(&m, 0, 0), EAST_WALL | SOUTH_WALL);
    assert_eq!(at(&m, 1, 1), NORTH_WALL | EAST_WALL | SOUTH_WALL | WEST_WALL);
    assert_eq!(at(&m, 2, 3), NORTH_WALL | WEST_WALL);
    assert!(m.wall_at(Point { row: 1, col: 2 }));
}

#[test]
fn five_by_five_walk_gives_a_tree_of_four_cells() {
    let mut m = Maze::new(5, 5, origin());
    let mut rng = StdRng::seed_from_u64(7);
    let (_tape, done) = generate_history(&mut m, &mut rng, &AtomicBool::new(false));
    assert!(done);
    for (r, c) in [(1, 1), (1, 3), (3, 1), (3, 3)] {
        assert!(is_passage(&m, r, c));
        assert!(at(&m, r, c) & BUILDER_BIT != 0);
    }
    let (cells, reached, connections) = survey(&m);
    assert_eq!(cells, 4);
    assert_eq!(reached, 4);
    assert_eq!(connections, 3);
    assert!(!is_passage(&m, 2, 2));
    assert!(no_walk_marks(&m));
}

#[test]
fn generated_maze_is_a_spanning_tree() {
    for seed in 0..5u64 {
        let mut m = Maze::new(21, 31, origin());
        let mut rng = StdRng::seed_from_u64(seed);
        assert!(generate_maze(&mut m, &mut rng, &AtomicBool::new(false)));
        let (cells, reached, connections) = survey(&m);
        assert_eq!(cells, 10 * 15);
        assert_eq!(reached, cells);
        assert_eq!(connections, cells - 1);
        assert!(no_walk_marks(&m));
        for c in 0..31 {
            assert!(!is_passage(&m, 0, c));
            assert!(!is_passage(&m, 20, c));
        }
    }
}

#[test]
fn even_sides_keep_an_outer_wall() {
    let mut m = Maze::new(8, 6, origin());
    let mut rng = StdRng::seed_from_u64(3);
    assert!(generate_maze(&mut m, &mut rng, &AtomicBool::new(false)));
    let (cells, reached, connections) = survey(&m);
    assert_eq!(cells, 3 * 2);
    assert_eq!(reached, cells);
    assert_eq!(connections, cells - 1);
    for c in 0..6 {
        assert!(!is_passage(&m, 6, c));
        assert!(!is_passage(&m, 7, c));
    }
}

#[test]
fn single_cell_maze_is_complete_at_once() {
    let mut m = Maze::new(3, 3, origin());
    let mut rng = StdRng::seed_from_u64(1);
    let (tape, done) = generate_history(&mut m, &mut rng, &AtomicBool::new(false));
    assert!(done);
    assert!(is_passage(&m, 1, 1));
    assert_eq!(at(&m, 1, 1) & WALL_MASK, 0);
    assert_eq!(tape.len(), 5);
}

#[test]
fn replaying_the_tape_rebuilds_the_grid() {
    let mut m = Maze::new(11, 15, origin());
    let mut rng = StdRng::seed_from_u64(42);
    let (tape, done) = generate_history(&mut m, &mut rng, &AtomicBool::new(false));
    assert!(done);
    let mut copy = Maze::new(11, 15, origin());
    tape.replay_onto(&mut copy);
    for r in 0..11 {
        for c in 0..15 {
            assert_eq!(at(&copy, r, c), at(&m, r, c));
        }
    }
    for i in 0..tape.len() {
        let d = tape.get(i);
        assert!(d.burst >= 1 && d.burst <= 5);
    }
}

#[test]
fn carving_a_passage_is_one_burst() {
    let mut m = Maze::new(3, 3, origin());
    let mut tape = Tape::new();
    let w = RandomWalk::begin(&mut m, &mut tape, Point { row: 1, col: 1 });
    assert!(w.is_none());
    assert_eq!(tape.len(), 5);
    for i in 0..5 {
        assert_eq!(tape.get(i).burst, 5);
    }
    assert_eq!(tape.get(0).id, Point { row: 1, col: 1 });
    assert_eq!(tape.get(1).id, Point { row: 0, col: 1 });
    assert_eq!(tape.get(1).before & SOUTH_WALL, SOUTH_WALL);
    assert_eq!(tape.get(1).after & SOUTH_WALL, 0);
}

#[test]
fn revisiting_the_walk_erases_the_loop() {
    let mut m = Maze::new(7, 7, origin());
    let mut tape = Tape::new();
    let mut w = RandomWalk::begin(&mut m, &mut tape, Point { row: 5, col: 5 }).unwrap();
    assert_eq!(w.walk, Point { row: 1, col: 1 });
    assert!(w.walk_step(&mut m, &mut tape, &vec![1]));
    assert_eq!(w.walk, Point { row: 1, col: 3 });
    assert!(w.walk_step(&mut m, &mut tape, &vec![2]));
    assert_eq!(w.walk, Point { row: 3, col: 3 });
    assert!(w.walk_step(&mut m, &mut tape, &vec![3]));
    assert_eq!(w.walk, Point { row: 3, col: 1 });
    assert_eq!(w.prev, Point { row: 3, col: 3 });
    assert!(w.walk_step(&mut m, &mut tape, &vec![0]));
    assert_eq!(w.walk, Point { row: 1, col: 1 });
    assert_eq!(w.prev, Point { row: 0, col: 0 });
    for (r, c) in [(1, 3), (3, 3), (3, 1)] {
        assert_eq!(at(&m, r, c) & WALK_BIT, 0);
        assert_eq!(at(&m, r, c) & MARKERS_MASK, 0);
    }
    assert_ne!(at(&m, 1, 1) & WALK_BIT, 0);
}

#[test]
fn reaching_the_tree_carves_the_walk() {
    let mut m = Maze::new(5, 7, origin());
    let mut tape = Tape::new();
    let mut w = RandomWalk::begin(&mut m, &mut tape, Point { row: 1, col: 5 }).unwrap();
    assert_eq!(w.walk, Point { row: 1, col: 1 });
    assert!(w.walk_step(&mut m, &mut tape, &vec![1]));
    assert_eq!(w.walk, Point { row: 1, col: 3 });
    assert!(w.walk_step(&mut m, &mut tape, &vec![1]));
    for c in 1..6 {
        assert!(is_passage(&m, 1, c));
    }
    assert_eq!(w.walk, Point { row: 3, col: 1 });
    assert_eq!(w.prev_row_start, 3);
    assert_eq!(at(&m, 1, 3) & WALK_BIT, 0);
}

#[test]
fn a_step_with_no_way_out_changes_nothing() {
    let mut m = Maze::new(7, 7, origin());
    let mut tape = Tape::new();
    let mut w = RandomWalk::begin(&mut m, &mut tape, Point { row: 5, col: 5 }).unwrap();
    let before = tape.len();
    assert!(w.walk_step(&mut m, &mut tape, &vec![0, 3, 9]));
    assert_eq!(w.walk, Point { row: 1, col: 1 });
    assert_eq!(tape.len(), before);
}

#[test]
fn recursive_backtracker_carves_a_spanning_tree() {
    for seed in 0..5u64 {
        let mut m = Maze::new(15, 23, origin());
        let mut rng = StdRng::seed_from_u64(seed);
        maze_race::recursive_backtracker::generate_maze(&mut m, &mut rng);
        let (cells, reached, connections) = survey(&m);
        assert_eq!(cells, 7 * 11);
        assert_eq!(reached, cells);
        assert_eq!(connections, cells - 1);
        assert!(no_walk_marks(&m));
    }
}

#[test]
fn recursive_backtracker_on_the_smallest_maze() {
    let mut m = Maze::new(3, 3, origin());
    let mut rng = StdRng::seed_from_u64(0);
    maze_race::recursive_backtracker::generate_maze(&mut m, &mut rng);
    assert!(is_passage(&m, 1, 1));
    assert!(no_walk_marks(&m));
}

#[test]
fn hunt_and_kill_carves_a_spanning_tree() {
    for seed in 0..5u64 {
        let mut m = Maze::new(13, 25, origin());
        let mut rng = StdRng::seed_from_u64(seed);
        assert!(maze_race::hunt_kill::generate_maze(&mut m, &mut rng, &AtomicBool::new(false)));
        let (cells, reached, connections) = survey(&m);
        assert_eq!(cells, 6 * 12);
        assert_eq!(reached, cells);
        assert_eq!(connections, cells - 1);
        assert!(no_walk_marks(&m));
    }
}

#[test]
fn stop_before_start_leaves_the_grid_walled() {
    let stop = AtomicBool::new(true);
    let mut m = Maze::new(9, 9, origin());
    let mut rng = StdRng::seed_from_u64(4);
    let (tape, done) = generate_history(&mut m, &mut rng, &stop);
    assert!(!done);
    assert_eq!(tape.len(), 0);
    let fresh = Maze::new(9, 9, origin());
    for r in 0..9 {
        for c in 0..9 {
            assert_eq!(at(&m, r, c), at(&fresh, r, c));
        }
    }
    let mut h = Maze::new(9, 9, origin());
    assert!(!maze_race::hunt_kill::generate_maze(&mut h, &mut rng, &stop));
    for r in 0..9 {
        for c in 0..9 {
            assert!(!is_passage(&h, r, c));
        }
    }
}

#[test]
fn every_delta_records_the_value_it_replaces() {
    let mut m = Maze::new(9, 11, origin());
    let mut rng = StdRng::seed_from_u64(6);
    let (tape, done) = generate_history(&mut m, &mut rng, &AtomicBool::new(false));
    assert!(done);
    let mut copy = Maze::new(9, 11, origin());
    for i in 0..tape.len() {
        let d = tape.get(i);
        assert_eq!(copy.get(d.id), d.before);
        copy.set(d.id, d.after);
    }
}

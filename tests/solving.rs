use maze_race::cell::{self, CACHE_MASK, FINISH_BIT, PAINT_MASK, PATH_BIT, START_BIT};
use maze_race::cursor::InvisibleCursor;
use maze_race::maze::{Maze, Offset, Point};
use maze_race::random::direction_order;
use maze_race::solve::{corner_starts, Claim, SolveError, SolveSession, Step, Worker};
use maze_race::wilson::generate_maze;
use rand::rngs::StdRng;
use rand::SeedableRng;
use std::sync::atomic::AtomicBool;

fn origin() -> Offset {
    Offset { add_rows: 0, add_cols: 0 }
}

fn p(row: i32, col: i32) -> Point {
    Point { row, col }
}

/// A 3 by 7 grid whose middle row is one corridor from (1, 1) to (1, 5).
fn corridor() -> Maze {
    let mut m = Maze::new(3, 7, origin());
    for c in 1..6 {
        let v = m.get(p(1, c));
        m.set(p(1, c), cell::open(v));
    }
    m
}

fn snapshot(m: &Maze) -> Vec<u32> {
    let mut out = Vec::new();
    for r in 0..m.rows() {
        for c in 0..m.cols() {
            out.push(m.get(p(r, c)));
        }
    }
    out
}

fn all_dirs() -> Vec<usize> {
    vec![0, 1, 2, 3]
}

#[test]
fn hunter_walks_the_corridor_and_wins() {
    let mut s = SolveSession::new(corridor(), true);
    s.place_start(p(1, 1));
    s.place_finish(p(1, 5));
    let mut w = Worker::new(2, p(1, 1), &s.maze).unwrap();
    let mut steps = Vec::new();
    loop {
        let r = s.hunt_step(&mut w, &all_dirs(), false);
        steps.push(r);
        if r != Step::Moved && r != Step::Backtracked {
            break;
        }
    }
    assert_eq!(steps, vec![Step::Moved, Step::Moved, Step::Moved, Step::Moved, Step::Won]);
    assert_eq!(s.win, Some(2));
    assert_eq!(w.stack_len(), 5);
    for c in 1..6 {
        let v = s.maze.get(p(1, c));
        assert_eq!(v & CACHE_MASK, 0x1000 << 2);
        assert_eq!(v & PAINT_MASK, 0x100 << 2);
    }
    assert_ne!(s.maze.get(p(1, 1)) & START_BIT, 0);
    assert_ne!(s.maze.get(p(1, 5)) & FINISH_BIT, 0);
}

#[test]
fn winner_is_never_overwritten() {
    let mut s = SolveSession::new(corridor(), true);
    s.place_finish(p(1, 3));
    let mut a = Worker::new(0, p(1, 1), &s.maze).unwrap();
    let mut b = Worker::new(1, p(1, 5), &s.maze).unwrap();
    assert_eq!(s.hunt_step(&mut a, &all_dirs(), false), Step::Moved);
    assert_eq!(s.hunt_step(&mut b, &all_dirs(), false), Step::Moved);
    assert_eq!(s.hunt_step(&mut a, &all_dirs(), false), Step::Moved);
    assert_eq!(s.hunt_step(&mut b, &all_dirs(), false), Step::Moved);
    assert_eq!(s.hunt_step(&mut b, &all_dirs(), false), Step::Won);
    assert_eq!(s.win, Some(1));
    assert_eq!(s.hunt_step(&mut a, &all_dirs(), false), Step::Stopped);
    assert_eq!(s.win, Some(1));
    let mut c = Worker::new(3, p(1, 3), &s.maze).unwrap();
    assert_eq!(s.hunt_step(&mut c, &all_dirs(), false), Step::Stopped);
    assert_eq!(s.win, Some(1));
}

#[test]
fn dead_end_backtracks_and_unpaints() {
    let mut s = SolveSession::new(corridor(), true);
    let mut w = Worker::new(0, p(1, 4), &s.maze).unwrap();
    assert_eq!(s.hunt_step(&mut w, &vec![1, 3], false), Step::Moved);
    assert_eq!(s.hunt_step(&mut w, &vec![1, 3], false), Step::Backtracked);
    let v = s.maze.get(p(1, 5));
    assert_eq!(v & CACHE_MASK, 0x1000);
    assert_eq!(v & PAINT_MASK, 0);
    assert_eq!(w.stack_len(), 1);
}

#[test]
fn worker_without_finish_exhausts_without_winning() {
    let mut s = SolveSession::new(corridor(), true);
    let mut w = Worker::new(1, p(1, 3), &s.maze).unwrap();
    let mut last = Step::Moved;
    for _ in 0..50 {
        last = s.gather_step(&mut w, &all_dirs(), false);
        if last == Step::Exhausted || last == Step::Won {
            break;
        }
    }
    assert_eq!(last, Step::Exhausted);
    assert!(s.claims.is_empty());
    assert_eq!(s.win, None);
    assert_eq!(w.stack_len(), 0);
    for c in 1..6 {
        assert_eq!(s.maze.get(p(1, c)) & CACHE_MASK, 0x2000);
        assert_eq!(s.maze.get(p(1, c)) & PAINT_MASK, 0);
    }
    let mut h = Worker::new(2, p(1, 3), &s.maze).unwrap();
    for _ in 0..50 {
        last = s.hunt_step(&mut h, &all_dirs(), false);
        if last == Step::Exhausted {
            break;
        }
    }
    assert_eq!(last, Step::Exhausted);
    assert_eq!(s.win, None);
}

#[test]
fn gather_claims_each_finish_once() {
    let mut s = SolveSession::new(corridor(), true);
    s.place_finish(p(1, 1));
    s.place_finish(p(1, 5));
    let mut workers = vec![
        Worker::new(0, p(1, 3), &s.maze).unwrap(),
        Worker::new(1, p(1, 3), &s.maze).unwrap(),
        Worker::new(2, p(1, 3), &s.maze).unwrap(),
    ];
    let mut done = vec![false; 3];
    for _ in 0..100 {
        for i in 0..3 {
            if done[i] {
                continue;
            }
            let r = s.gather_step(&mut workers[i], &vec![3, 1], false);
            if r == Step::Won || r == Step::Exhausted {
                done[i] = true;
            }
        }
    }
    assert!(done.iter().all(|d| *d));
    assert_eq!(s.claims.len(), 2);
    assert_ne!(s.claims[0].finish, s.claims[1].finish);
    assert_eq!(s.claims[0], Claim { worker: 0, finish: p(1, 1) });
    assert_eq!(s.claims[1].finish, p(1, 5));
    assert_eq!(s.win, None);
}

#[test]
fn cancelled_session_changes_nothing() {
    let mut s = SolveSession::new(corridor(), true);
    s.place_finish(p(1, 5));
    let before = snapshot(&s.maze);
    let mut a = Worker::new(0, p(1, 1), &s.maze).unwrap();
    let mut b = Worker::new(1, p(1, 1), &s.maze).unwrap();
    for _ in 0..5 {
        assert_eq!(s.hunt_step(&mut a, &all_dirs(), true), Step::Cancelled);
        assert_eq!(s.gather_step(&mut b, &all_dirs(), true), Step::Cancelled);
    }
    assert_eq!(snapshot(&s.maze), before);
    assert_eq!(s.win, None);
    assert!(s.claims.is_empty());
    assert_eq!(a.stack_len(), 1);
    assert_eq!(b.stack_len(), 1);
}

#[test]
fn worker_limits_are_checked() {
    let m = corridor();
    assert_eq!(Worker::new(4, p(1, 1), &m).err(), Some(SolveError::TooManyWorkers));
    assert_eq!(Worker::new(0, p(3, 1), &m).err(), Some(SolveError::StartOutside));
    assert_eq!(Worker::new(0, p(-1, 1), &m).err(), Some(SolveError::StartOutside));
    let w = Worker::new(3, p(0, 0), &m).unwrap();
    assert_eq!(w.index, 3);
    assert_eq!(w.start, p(0, 0));
}

#[test]
fn hunt_preparation_marks_start_and_finish() {
    let mut m = Maze::new(9, 9, origin());
    let mut rng = StdRng::seed_from_u64(11);
    assert!(generate_maze(&mut m, &mut rng, &AtomicBool::new(false)));
    let mut s = SolveSession::new(m, true);
    let (start, _finish) = s.prepare_hunt(&mut rng, false).unwrap();
    let v = s.maze.get(start);
    assert_ne!(v & START_BIT, 0);
    assert_ne!(v & PATH_BIT, 0);
    let mut finishes = 0;
    for r in 0..9 {
        for c in 0..9 {
            if s.maze.get(p(r, c)) & FINISH_BIT != 0 {
                finishes += 1;
                assert_ne!(s.maze.get(p(r, c)) & PATH_BIT, 0);
            }
        }
    }
    assert_eq!(finishes, 1);
}

#[test]
fn preparation_needs_a_passage() {
    let mut s = SolveSession::new(Maze::new(5, 5, origin()), false);
    let mut rng = StdRng::seed_from_u64(2);
    assert_eq!(s.prepare_hunt(&mut rng, false), None);
    assert!(s.prepare_gather(&mut rng, 4, false).is_none());
    assert_eq!(s.pick_passage(&mut rng), None);
}

#[test]
fn random_picks_vary() {
    let s = SolveSession::new(corridor(), true);
    let mut rng = StdRng::seed_from_u64(5);
    let mut picked = Vec::new();
    for _ in 0..40 {
        let q = s.pick_passage(&mut rng).unwrap();
        assert_eq!(q.row, 1);
        if !picked.contains(&q) {
            picked.push(q);
        }
    }
    assert!(picked.len() > 1);
}

#[test]
fn direction_orders_are_shuffled_permutations() {
    let mut rng = StdRng::seed_from_u64(9);
    let mut moved = false;
    for _ in 0..20 {
        let mut o = direction_order(&mut rng);
        if o != vec![0, 1, 2, 3] {
            moved = true;
        }
        o.sort();
        assert_eq!(o, vec![0, 1, 2, 3]);
    }
    assert!(moved);
}

#[test]
fn gather_preparation_places_finishes() {
    let mut m = Maze::new(11, 11, origin());
    let mut rng = StdRng::seed_from_u64(4);
    assert!(generate_maze(&mut m, &mut rng, &AtomicBool::new(false)));
    let mut s = SolveSession::new(m, true);
    let (start, placed) = s.prepare_gather(&mut rng, 4, false).unwrap();
    assert_eq!(placed.len(), 4);
    assert_ne!(s.maze.get(start) & START_BIT, 0);
    let mut finishes = 0;
    for r in 0..11 {
        for c in 0..11 {
            if s.maze.get(p(r, c)) & FINISH_BIT != 0 {
                finishes += 1;
            }
        }
    }
    assert!(finishes >= 1 && finishes <= 4);
}

#[test]
fn corners_mode_opens_the_centre() {
    let mut m = Maze::new(9, 11, origin());
    let mut rng = StdRng::seed_from_u64(8);
    assert!(generate_maze(&mut m, &mut rng, &AtomicBool::new(false)));
    let corners = corner_starts(&m);
    assert_eq!(corners, vec![p(1, 1), p(1, 9), p(7, 1), p(7, 9)]);
    let mut s = SolveSession::new(m, true);
    let walls = snapshot(&s.maze);
    let mut starts = s.prepare_corners(&mut rng, false);
    for q in &starts {
        assert_ne!(s.maze.get(*q) & START_BIT, 0);
    }
    starts.sort_by_key(|q| (q.row, q.col));
    assert_eq!(starts, corners);
    let after = snapshot(&s.maze);
    for i in 0..walls.len() {
        assert_eq!(after[i] & !(START_BIT | FINISH_BIT), walls[i]);
    }
    assert_ne!(s.maze.get(p(3, 5)) & FINISH_BIT, 0);
    assert_ne!(s.maze.get(p(3, 5)) & PATH_BIT, 0);
}

#[test]
fn corners_race_finds_one_winner() {
    let mut m = Maze::new(9, 9, origin());
    let mut rng = StdRng::seed_from_u64(21);
    assert!(generate_maze(&mut m, &mut rng, &AtomicBool::new(false)));
    let mut s = SolveSession::new(m, true);
    let starts = s.prepare_corners(&mut rng, false);
    let mut workers: Vec<Worker> =
        (0..4).map(|i| Worker::new(i, starts[i], &s.maze).unwrap()).collect();
    let mut stopped = vec![false; 4];
    for _ in 0..1000 {
        for i in 0..4 {
            if stopped[i] {
                continue;
            }
            let order = direction_order(&mut rng);
            let r = s.hunt_step(&mut workers[i], &order, false);
            if r != Step::Moved && r != Step::Backtracked {
                stopped[i] = true;
            }
        }
    }
    assert!(stopped.iter().all(|d| *d));
    assert!(s.win.is_some());
    assert!(s.win.unwrap() < 4);
}

#[test]
fn clearing_scratch_keeps_the_maze() {
    let mut m = Maze::new(7, 7, origin());
    let mut rng = StdRng::seed_from_u64(13);
    assert!(generate_maze(&mut m, &mut rng, &AtomicBool::new(false)));
    let walls = snapshot(&m);
    let mut s = SolveSession::new(m, true);
    s.prepare_hunt(&mut rng, false).unwrap();
    let mut w = Worker::new(0, p(1, 1), &s.maze).unwrap();
    for _ in 0..5 {
        s.hunt_step(&mut w, &all_dirs(), false);
    }
    s.maze.clear_scratch();
    assert_eq!(snapshot(&s.maze), walls);
}

#[test]
fn cursor_token_is_made() {
    let c = InvisibleCursor::new();
    let _copy = c;
}

#[test]
fn plain_session_keeps_paint_on_dead_ends() {
    let mut s = SolveSession::new(corridor(), false);
    let mut w = Worker::new(0, p(1, 4), &s.maze).unwrap();
    assert_eq!(s.hunt_step(&mut w, &vec![1, 3], false), Step::Moved);
    assert_eq!(s.hunt_step(&mut w, &vec![1, 3], false), Step::Backtracked);
    let v = s.maze.get(p(1, 5));
    assert_eq!(v & CACHE_MASK, 0x1000);
    assert_eq!(v & PAINT_MASK, 0x100);
}

#[test]
fn cancelled_setup_changes_nothing() {
    let mut s = SolveSession::new(corridor(), false);
    let before = snapshot(&s.maze);
    let mut rng = StdRng::seed_from_u64(3);
    assert_eq!(s.prepare_hunt(&mut rng, true), None);
    assert!(s.prepare_gather(&mut rng, 2, true).is_none());
    assert!(s.prepare_corners(&mut rng, true).is_empty());
    assert_eq!(snapshot(&s.maze), before);
}

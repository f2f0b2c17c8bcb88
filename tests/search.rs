use eight_puzzle::{precedes, solve, Dir, Frontier, Puzzle, QueueElt};
use eight_puzzle::Dir::{Down, Left, Right, Up};

fn replay(mut p: Puzzle, path: &[Dir]) -> Puzzle {
    for d in path {
        p = p.move__(*d);
    }
    p
}

#[test]
fn solve_solved_gives_empty_path() {
    let p = Puzzle::from_state([0, 1, 2, 3, 4, 5, 6, 7, 8]);
    assert_eq!(solve(p), Some(Vec::new()));
}

#[test]
fn solve_one_move() {
    let p = Puzzle::from_state([0, 1, 2, 3, 4, 5, 6, 8, 7]);
    assert_eq!(solve(p), Some(vec![Right]));
}

#[test]
fn solve_scrambled_within_known_moves() {
    let solved = Puzzle::from_state([0, 1, 2, 3, 4, 5, 6, 7, 8]);
    let scramble = [Up, Left, Up, Left, Down, Right, Down, Left, Up, Up];
    let start = replay(solved, &scramble);
    let path = solve(start).unwrap();
    assert!(path.len() <= scramble.len());
    assert!(replay(start, &path).is_solved());
}

#[test]
fn solve_hard_instance() {
    let start = Puzzle::from_state([0, 7, 8, 3, 6, 2, 5, 4, 1]);
    let path = solve(start).unwrap();
    assert!(replay(start, &path).is_solved());
}

#[test]
fn solve_unsolvable_gives_none() {
    let p = Puzzle::from_state([0, 1, 2, 5, 4, 3, 6, 7, 8]);
    assert_eq!(solve(p), None);
}

#[test]
fn solve_twice_same_length() {
    let p = Puzzle::from_state([1, 2, 5, 0, 8, 4, 3, 6, 7]);
    let a = solve(p).unwrap();
    let b = solve(p).unwrap();
    assert_eq!(a.len(), b.len());
    assert!(replay(p, &a).is_solved());
}

#[test]
fn queue_elt_priority() {
    let p = Puzzle::from_state([1, 0, 2, 3, 4, 5, 6, 7, 8]);
    let e = QueueElt::new(p, vec![Up, Left, Down]);
    assert_eq!(e.f, 5);
    assert_eq!(e.path, vec![Up, Left, Down]);
}

#[test]
fn frontier_pops_in_priority_order() {
    let mut f = Frontier::new();
    assert!(f.is_empty());
    let items = [(5, 0), (3, 1), (9, 2), (3, 0), (1, 7), (4, 4)];
    for x in items.iter() {
        f.push(*x);
    }
    let mut out = Vec::new();
    while let Some(x) = f.pop() {
        out.push(x);
    }
    assert_eq!(out, vec![(1, 7), (3, 0), (3, 1), (4, 4), (5, 0), (9, 2)]);
    assert!(f.pop().is_none());
}

#[test]
fn precedes_orders_by_priority_then_index() {
    assert!(precedes(&(1, 9), &(2, 0)));
    assert!(precedes(&(2, 0), &(2, 1)));
    assert!(!precedes(&(2, 1), &(2, 1)));
    assert!(!precedes(&(3, 0), &(2, 5)));
}

#[test]
fn solve_path_replays_to_solved() {
    let start = Puzzle::from_state([6, 0, 2, 1, 3, 5, 4, 7, 8]);
    let path = solve(start).unwrap();
    assert!(replay(start, &path).is_solved());
}

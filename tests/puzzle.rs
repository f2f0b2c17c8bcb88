use eight_puzzle::{legal, Dir, Puzzle};
use eight_puzzle::Dir::{Down, Left, Right, Up};

#[test]
fn test_heuristic() {
    let p = Puzzle::from_state([0, 1, 2, 3, 4, 5, 6, 7, 8]);
    assert_eq!(p.heuristic(), 0);

    let p = Puzzle::from_state([1, 0, 2, 3, 4, 5, 6, 7, 8]);
    assert_eq!(p.heuristic(), 2);

    let p = Puzzle::from_state([8, 1, 2, 3, 4, 5, 6, 7, 0]);
    assert_eq!(p.heuristic(), 8);

    let p = Puzzle::from_state([0, 1, 2, 5, 4, 3, 6, 7, 8]);
    assert_eq!(p.heuristic(), 4);
}

#[test]
fn test_iterator() {
    let p = Puzzle::from_state([0, 1, 2, 3, 4, 5, 6, 7, 8]);
    let mut it = p.child_states();
    assert_eq!(it.next().unwrap().1, Up);
    assert_eq!(it.next().unwrap().1, Left);

    let p = Puzzle::from_state([0, 1, 2, 3, 4, 5, 6, 8, 7]);
    let mut it = p.child_states();
    assert_eq!(it.next().unwrap().1, Up);
    assert_eq!(it.next().unwrap().1, Left);
    assert_eq!(it.next().unwrap().1, Right);

    let p = Puzzle::from_state([0, 1, 2, 3, 4, 5, 8, 6, 7]);
    let mut it = p.child_states();
    assert_eq!(it.next().unwrap().1, Up);
    assert_eq!(it.next().unwrap().1, Right);

    let p = Puzzle::from_state([0, 1, 2, 3, 4, 8, 5, 6, 7]);
    let mut it = p.child_states();
    assert_eq!(it.next().unwrap().1, Up);
    assert_eq!(it.next().unwrap().1, Down);
    assert_eq!(it.next().unwrap().1, Left);

    let p = Puzzle::from_state([0, 1, 2, 3, 8, 4, 5, 6, 7]);
    let mut it = p.child_states();
    assert_eq!(it.next().unwrap().1, Up);
    assert_eq!(it.next().unwrap().1, Down);
    assert_eq!(it.next().unwrap().1, Left);
    assert_eq!(it.next().unwrap().1, Right);

    let p = Puzzle::from_state([0, 1, 2, 8, 3, 4, 5, 6, 7]);
    let mut it = p.child_states();
    assert_eq!(it.next().unwrap().1, Up);
    assert_eq!(it.next().unwrap().1, Down);
    assert_eq!(it.next().unwrap().1, Right);

    let p = Puzzle::from_state([0, 1, 8, 2, 3, 4, 5, 6, 7]);
    let mut it = p.child_states();
    assert_eq!(it.next().unwrap().1, Down);
    assert_eq!(it.next().unwrap().1, Left);

    let p = Puzzle::from_state([0, 8, 1, 2, 3, 4, 5, 6, 7]);
    let mut it = p.child_states();
    assert_eq!(it.next().unwrap().1, Down);
    assert_eq!(it.next().unwrap().1, Left);
    assert_eq!(it.next().unwrap().1, Right);

    let p = Puzzle::from_state([8, 0, 1, 2, 3, 4, 5, 6, 7]);
    let mut it = p.child_states();
    assert_eq!(it.next().unwrap().1, Down);
    assert_eq!(it.next().unwrap().1, Right);
}

#[test]
fn heuristic_zero_exactly_when_solved() {
    let cases: [[u8; 9]; 5] = [
        [0, 1, 2, 3, 4, 5, 6, 7, 8],
        [1, 0, 2, 3, 4, 5, 6, 7, 8],
        [0, 1, 2, 3, 4, 5, 6, 8, 7],
        [8, 7, 6, 5, 4, 3, 2, 1, 0],
        [3, 1, 2, 0, 4, 5, 6, 7, 8],
    ];
    for c in cases.iter() {
        let p = Puzzle::from_state(*c);
        assert_eq!(p.heuristic() == 0, p.is_solved());
    }
}

#[test]
fn heuristic_of_reversed_arrangement() {
    // each label sits at its mirror cell: 4+2+4 + 2+0+2 + 4+2+4
    let p = Puzzle::from_state([8, 7, 6, 5, 4, 3, 2, 1, 0]);
    assert_eq!(p.heuristic(), 24);
}

#[test]
fn is_solved_only_on_identity() {
    assert!(Puzzle::from_state([0, 1, 2, 3, 4, 5, 6, 7, 8]).is_solved());
    assert!(!Puzzle::from_state([0, 1, 2, 3, 4, 5, 6, 8, 7]).is_solved());
    assert!(!Puzzle::from_state([1, 0, 2, 3, 4, 5, 6, 7, 8]).is_solved());
}

#[test]
fn move_swaps_blank_with_neighbour() {
    let p = Puzzle::from_state([0, 1, 2, 3, 8, 4, 5, 6, 7]);
    assert_eq!(p.move_(Up, 4).tiles(), [0, 8, 2, 3, 1, 4, 5, 6, 7]);
    assert_eq!(p.move_(Down, 4).tiles(), [0, 1, 2, 3, 6, 4, 5, 8, 7]);
    assert_eq!(p.move_(Left, 4).tiles(), [0, 1, 2, 8, 3, 4, 5, 6, 7]);
    assert_eq!(p.move_(Right, 4).tiles(), [0, 1, 2, 3, 4, 8, 5, 6, 7]);
    assert_eq!(p.move__(Right).tiles(), [0, 1, 2, 3, 4, 8, 5, 6, 7]);
}

#[test]
fn blank_is_located() {
    assert_eq!(Puzzle::from_state([0, 1, 2, 3, 4, 5, 6, 7, 8]).blank(), 8);
    assert_eq!(Puzzle::from_state([8, 0, 1, 2, 3, 4, 5, 6, 7]).blank(), 0);
    assert_eq!(Puzzle::from_state([0, 1, 2, 3, 8, 4, 5, 6, 7]).blank(), 4);
}

#[test]
fn successors_carry_moved_puzzles() {
    let p = Puzzle::from_state([0, 1, 2, 3, 4, 5, 6, 7, 8]);
    let mut it = p.child_states();
    let (a, da) = it.next().unwrap();
    let (b, db) = it.next().unwrap();
    assert_eq!((da, db), (Up, Left));
    assert_eq!(a.tiles(), [0, 1, 2, 3, 4, 8, 6, 7, 5]);
    assert_eq!(b.tiles(), [0, 1, 2, 3, 4, 5, 6, 8, 7]);
    assert!(it.next().is_none());
    assert!(it.next().is_none());
}

#[test]
fn move_counts_by_position() {
    let counts = [2, 3, 2, 3, 4, 3, 2, 3, 2];
    for b in 0..9u8 {
        let n = [Up, Down, Left, Right].iter().filter(|d| legal(b, **d)).count();
        assert_eq!(n, counts[b as usize]);
    }
}

#[test]
fn random_puzzle_is_a_permutation() {
    for _ in 0..20 {
        let mut t = Puzzle::rand_puzzle().tiles();
        t.sort();
        assert_eq!(t, [0, 1, 2, 3, 4, 5, 6, 7, 8]);
    }
}

#[test]
fn directions_print_by_name() {
    let d: Dir = Left;
    assert_eq!(format!("{:?}", d), "Left");
}

#[test]
fn shuffle_with_zero_draws_rotates() {
    let p = Puzzle::shuffle([0; 9]);
    assert_eq!(p.tiles(), [1, 2, 3, 4, 5, 6, 7, 8, 0]);
}

#[test]
fn shuffle_with_own_index_draws_keeps_order() {
    let p = Puzzle::shuffle([0, 1, 2, 3, 4, 5, 6, 7, 8]);
    assert_eq!(p.tiles(), [0, 1, 2, 3, 4, 5, 6, 7, 8]);
}

#[test]
fn shuffle_reduces_draw_modulo_range() {
    let p = Puzzle::shuffle([0, 1, 2, 3, 4, 5, 6, 7, 255]);
    assert_eq!(p.tiles(), [0, 1, 2, 8, 4, 5, 6, 7, 3]);
}

#[test]
fn display_three_rows() {
    let p = Puzzle::from_state([0, 1, 2, 3, 4, 5, 6, 7, 8]);
    assert_eq!(p.display(), "0 1 2\n3 4 5\n6 7 8");
    let p = Puzzle::from_state([8, 7, 6, 5, 4, 3, 2, 1, 0]);
    assert_eq!(p.display(), "8 7 6\n5 4 3\n2 1 0");
}

#[test]
fn fresh_iterator_starts_at_up() {
    let p = Puzzle::from_state([0, 1, 8, 2, 3, 4, 5, 6, 7]);
    let it = p.child_states();
    assert_eq!(it.dir, Some(Up));
    assert_eq!(it.index, 2);
}

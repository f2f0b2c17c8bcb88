use vstd::prelude::*;
use crate::puzzle::{Dir, Puzzle, can_move, slide, blank_index, lemma_has_blank, legal, BLANK};

verus! {

/// The direction tried at cursor position `k`: Up, Down, Left, Right in turn.
pub open spec fn dir_at(k: int) -> Dir {
    if k <= 0 {
        Dir::Up
    } else if k == 1 {
        Dir::Down
    } else if k == 2 {
        Dir::Left
    } else {
        Dir::Right
    }
}

/// The legal directions for the blank at `b`, from cursor position `k` on, in order.
pub open spec fn moves_from(b: int, k: int) -> Seq<Dir>
    decreases 4 - k,
{
    if k >= 4 {
        Seq::empty()
    } else if can_move(b, dir_at(k)) {
        seq![dir_at(k)] + moves_from(b, k + 1)
    } else {
        moves_from(b, k + 1)
    }
}

/// All legal directions for the blank at `b`, in the order Up, Down, Left, Right.
pub open spec fn legal_moves(b: int) -> Seq<Dir> {
    moves_from(b, 0)
}

/// The cursor position of a pending direction; 4 once all are done.
pub open spec fn cursor(d: Option<Dir>) -> int {
    match d {
        Some(Dir::Up) => 0,
        Some(Dir::Down) => 1,
        Some(Dir::Left) => 2,
        Some(Dir::Right) => 3,
        None => 4,
    }
}

pub proof fn lemma_moves_from_len(b: int, k: int)
    requires
        0 <= k,
    ensures
        moves_from(b, k).len() <= 4 - k || (k > 4 && moves_from(b, k).len() == 0),
        moves_from(b, k).len() <= 4,
    decreases 4 - k,
{
    if k < 4 {
        lemma_moves_from_len(b, k + 1);
    }
}

/// Legal moves are the only ones listed.
pub proof fn lemma_moves_from_legal(b: int, k: int)
    ensures
        forall|i: int| 0 <= i < moves_from(b, k).len() ==> can_move(b, #[trigger] moves_from(b, k)[i]),
    decreases 4 - k,
{
    if k < 4 {
        lemma_moves_from_legal(b, k + 1);
        let s = moves_from(b, k);
        let rest = moves_from(b, k + 1);
        if can_move(b, dir_at(k)) {
            assert forall|i: int| 0 <= i < s.len() implies can_move(b, #[trigger] s[i]) by {
                if i > 0 {
                    assert(s[i] == rest[i - 1]);
                }
            }
        }
    }
}

/// The rank of a direction in the order Up, Down, Left, Right.
pub open spec fn rank(d: Dir) -> int {
    cursor(Some(d))
}

/// Every legal direction is listed.
pub proof fn lemma_legal_listed(b: int, d: Dir, k: int)
    requires
        can_move(b, d),
        0 <= k <= rank(d),
    ensures
        moves_from(b, k).contains(d),
    decreases 4 - k,
{
    if k == rank(d) {
        assert(dir_at(k) == d);
        assert(moves_from(b, k)[0] == d);
    } else {
        lemma_legal_listed(b, d, k + 1);
        let rest = moves_from(b, k + 1);
        let j = choose|j: int| 0 <= j < rest.len() && rest[j] == d;
        if can_move(b, dir_at(k)) {
            assert(moves_from(b, k)[j + 1] == d);
        } else {
            assert(moves_from(b, k)[j] == d);
        }
    }
}

/// A corner has two legal moves, an edge three, the centre four.
pub proof fn lemma_legal_move_count(b: int)
    requires
        0 <= b < 9,
    ensures
        b == 4 ==> legal_moves(b).len() == 4,
        (b == 1 || b == 3 || b == 5 || b == 7) ==> legal_moves(b).len() == 3,
        (b == 0 || b == 2 || b == 6 || b == 8) ==> legal_moves(b).len() == 2,
{
    reveal_with_fuel(moves_from, 5);
}

/// The successors of one puzzle, produced one at a time.
pub struct PuzzleIter {
    pub puzzle: Puzzle,
    pub dir: Option<Dir>,
    pub index: u8,
}

impl PuzzleIter {
    /// The blank stands at `index` in the puzzle, which is well formed.
    pub open spec fn wf(&self) -> bool {
        &&& self.puzzle.wf()
        &&& self.index < 9
        &&& self.puzzle.state@[self.index as int] == BLANK
    }

    /// The directions still to come.
    pub open spec fn pending(&self) -> Seq<Dir> {
        moves_from(self.index as int, cursor(self.dir))
    }

    /// Starts at the first direction, Up, with the blank located.
    pub fn new(puzzle: &Puzzle) -> (r: Self)
        requires
            puzzle.wf(),
        ensures
            r.wf(),
            r.puzzle == *puzzle,
            r.dir == Some(Dir::Up),
            r.index as int == blank_index(puzzle.state@),
            r.pending() == legal_moves(blank_index(puzzle.state@)),
    {
        let index = puzzle.blank();
        proof {
            lemma_has_blank(puzzle.state@);
        }
        PuzzleIter { puzzle: *puzzle, dir: Some(Dir::Up), index }
    }

    /// The next legal direction with the puzzle it leads to, or `None` when all are done.
    pub fn next(&mut self) -> (r: Option<(Puzzle, Dir)>)
        requires
            old(self).wf(),
        ensures
            final(self).wf(),
            final(self).puzzle == old(self).puzzle,
            final(self).index == old(self).index,
            old(self).pending().len() == 0 ==> r.is_none() && final(self).pending().len() == 0,
            old(self).pending().len() > 0 ==> {
                &&& r matches Some((p, d))
                &&& d == old(self).pending()[0]
                &&& p.wf()
                &&& p.state@ == slide(old(self).puzzle.state@, old(self).index as int, d)
                &&& final(self).pending() == old(self).pending().drop_first()
            },
    {
        loop
            invariant
                self.wf(),
                self.puzzle == old(self).puzzle,
                self.index == old(self).index,
                self.pending() == old(self).pending(),
            decreases 4 - cursor(self.dir),
        {
            match self.dir {
                None => {
                    return None;
                },
                Some(d) => {
                    let ghost k = cursor(self.dir);
                    self.dir = match d {
                        Dir::Up => Some(Dir::Down),
                        Dir::Down => Some(Dir::Left),
                        Dir::Left => Some(Dir::Right),
                        Dir::Right => None,
                    };
                    assert(dir_at(k) == d);
                    if legal(self.index, d) {
                        let p = self.puzzle.move_(d, self.index);
                        assert(old(self).pending() == seq![d] + self.pending());
                        assert(old(self).pending().drop_first() =~= self.pending());
                        return Some((p, d));
                    }
                },
            }
        }
    }
}

impl Puzzle {
    /// The successors of this puzzle, one per legal move of the blank.
    pub fn child_states(&self) -> (r: PuzzleIter)
        requires
            self.wf(),
        ensures
            r.wf(),
            r.puzzle == *self,
            r.dir == Some(Dir::Up),
            r.index as int == blank_index(self.state@),
            r.pending() == legal_moves(blank_index(self.state@)),
    {
        PuzzleIter::new(self)
    }
}

} // verus!

use vstd::prelude::*;

verus! {

/// The direction in which the blank tile moves.
#[derive(Debug, PartialEq, Eq, Copy, Clone)]
pub enum Dir {
    Up,
    Down,
    Left,
    Right,
}

/// The label that stands for the blank.
pub const BLANK: u8 = 8;

/// A 3x3 arrangement of the labels 0..8; index `i` is row `i / 3`, column `i % 3`.
#[derive(Clone, Copy, Debug, Hash, PartialEq, Eq)]
pub struct Puzzle {
    pub state: [u8; 9],
}

/// Every label 0..8 occurs exactly once, and nothing else does.
pub open spec fn is_permutation(s: Seq<u8>) -> bool {
    &&& s.len() == 9
    &&& forall|i: int| 0 <= i < 9 ==> #[trigger] s[i] < 9
    &&& forall|i: int, j: int| 0 <= i < 9 && 0 <= j < 9 && i != j ==> s[i] != s[j]
    &&& forall|v: u8| v < 9 ==> #[trigger] s.contains(v)
}

/// The solved arrangement: label `i` at index `i`.
pub open spec fn is_goal(s: Seq<u8>) -> bool {
    s.len() == 9 && forall|i: int| 0 <= i < 9 ==> #[trigger] s[i] == i
}

pub open spec fn row(i: int) -> int {
    i / 3
}

pub open spec fn col(i: int) -> int {
    i % 3
}

pub open spec fn abs_diff(a: int, b: int) -> int {
    if a >= b {
        a - b
    } else {
        b - a
    }
}

/// Manhattan distance between the cell of index `i` and the home cell of label `v`.
pub open spec fn manhattan(i: int, v: int) -> int {
    abs_diff(row(i), row(v)) + abs_diff(col(i), col(v))
}

/// Sum of the Manhattan distances of the first `n` cells.
pub open spec fn distance_upto(s: Seq<u8>, n: int) -> int
    decreases n,
{
    if n <= 0 {
        0
    } else {
        distance_upto(s, n - 1) + manhattan(n - 1, s[n - 1] as int)
    }
}

/// The heuristic: sum over all cells of the distance of its label from home.
pub open spec fn distance(s: Seq<u8>) -> int {
    distance_upto(s, 9)
}

/// The blank at index `b` can move in direction `d` without leaving the grid.
pub open spec fn can_move(b: int, d: Dir) -> bool {
    0 <= b < 9 && match d {
        Dir::Up => row(b) != 0,
        Dir::Down => row(b) != 2,
        Dir::Left => col(b) != 0,
        Dir::Right => col(b) != 2,
    }
}

/// The index of the cell that the blank at `b` moves into.
pub open spec fn target(b: int, d: Dir) -> int {
    match d {
        Dir::Up => b - 3,
        Dir::Down => b + 3,
        Dir::Left => b - 1,
        Dir::Right => b + 1,
    }
}

/// Swap the blank at `b` with its neighbour in direction `d`.
pub open spec fn slide(s: Seq<u8>, b: int, d: Dir) -> Seq<u8> {
    let t = target(b, d);
    s.update(b, s[t]).update(t, s[b])
}

/// Where the blank stands in `s`.
pub open spec fn blank_index(s: Seq<u8>) -> int {
    choose|i: int| 0 <= i < 9 && s[i] == BLANK
}

pub proof fn lemma_blank_index(s: Seq<u8>, i: int)
    requires
        is_permutation(s),
        0 <= i < 9,
        s[i] == BLANK,
    ensures
        blank_index(s) == i,
{
    let b = blank_index(s);
    assert(0 <= b < 9 && s[b] == BLANK);
}

pub proof fn lemma_has_blank(s: Seq<u8>)
    requires
        is_permutation(s),
    ensures
        0 <= blank_index(s) < 9,
        s[blank_index(s)] == BLANK,
{
    assert(s.contains(BLANK));
    let i = choose|i: int| 0 <= i < s.len() && s[i] == BLANK;
    lemma_blank_index(s, i);
}

/// Swapping two cells of a permutation gives a permutation.
pub proof fn lemma_swap_permutation(s: Seq<u8>, a: int, b: int)
    requires
        is_permutation(s),
        0 <= a < 9,
        0 <= b < 9,
    ensures
        is_permutation(s.update(a, s[b]).update(b, s[a])),
{
    let r = s.update(a, s[b]).update(b, s[a]);
    assert forall|v: u8| v < 9 implies #[trigger] r.contains(v) by {
        assert(s.contains(v));
        let i = choose|i: int| 0 <= i < s.len() && s[i] == v;
        if i == a {
            assert(r[b] == v);
        } else if i == b {
            assert(r[a] == v);
        } else {
            assert(r[i] == v);
        }
    }
}

/// The state of one slide of the blank at `b` in a legal direction is again a permutation.
pub proof fn lemma_slide_permutation(s: Seq<u8>, b: int, d: Dir)
    requires
        is_permutation(s),
        can_move(b, d),
    ensures
        is_permutation(slide(s, b, d)),
        0 <= target(b, d) < 9,
{
    lemma_swap_permutation(s, b, target(b, d));
}

pub proof fn lemma_distance_nonneg(s: Seq<u8>, n: int)
    ensures
        distance_upto(s, n) >= 0,
    decreases n,
{
    if n > 0 {
        lemma_distance_nonneg(s, n - 1);
    }
}

proof fn lemma_distance_zero(s: Seq<u8>, n: int)
    requires
        0 <= n <= 9,
        s.len() == 9,
    ensures
        distance_upto(s, n) == 0 <==> forall|i: int| 0 <= i < n ==> #[trigger] s[i] == i,
    decreases n,
{
    if n > 0 {
        lemma_distance_zero(s, n - 1);
        lemma_distance_nonneg(s, n - 1);
        let v = s[n - 1] as int;
        assert(manhattan(n - 1, v) == 0 <==> v == n - 1) by {
            if manhattan(n - 1, v) == 0 {
                assert(v == 3 * row(v) + col(v));
                assert(n - 1 == 3 * row(n - 1) + col(n - 1));
            }
        }
        if distance_upto(s, n) == 0 {
            assert forall|i: int| 0 <= i < n implies #[trigger] s[i] == i by {
                if i < n - 1 {
                    assert(s[i] == i);
                }
            }
        }
    }
}

/// The heuristic is zero exactly on the solved arrangement.
pub proof fn lemma_distance_zero_iff_goal(s: Seq<u8>)
    requires
        is_permutation(s),
    ensures
        distance(s) == 0 <==> is_goal(s),
{
    lemma_distance_zero(s, 9);
}

/// Whether the blank at `index` can move in direction `dir`.
pub fn legal(index: u8, dir: Dir) -> (r: bool)
    requires
        index < 9,
    ensures
        r == can_move(index as int, dir),
{
    match dir {
        Dir::Up => index / 3 != 0,
        Dir::Down => index / 3 != 2,
        Dir::Left => index % 3 != 0,
        Dir::Right => index % 3 != 2,
    }
}

/// Relies on rand::random (rand 0.8): it returns a value of `T` drawn from the
/// thread-local generator; nothing is promised of which value. It panics only
/// where the operating system's generator cannot seed that generator.
pub assume_specification<T>[ rand::random::<T> ]() -> (r: T)
    where
        rand::distributions::Standard: rand::distributions::Distribution<T>,
;

/// The labels 0..8 in order.
pub open spec fn identity() -> Seq<u8> {
    Seq::new(9, |i: int| i as u8)
}

/// The arrangement after the Fisher-Yates steps for the cells from 8 down to
/// `n`: step `i` swaps cell `i` with cell `draws[i] % (i + 1)`.
pub open spec fn shuffled(draws: Seq<u8>, n: int) -> Seq<u8>
    decreases 9 - n,
{
    if n >= 9 {
        identity()
    } else {
        let s = shuffled(draws, n + 1);
        let pos = (draws[n] % ((n + 1) as u8)) as int;
        s.update(n, s[pos]).update(pos, s[n])
    }
}

/// The Fisher-Yates shuffle of the labels 0..8 under the nine draws.
pub open spec fn fisher_yates(draws: Seq<u8>) -> Seq<u8> {
    shuffled(draws, 0)
}

/// The text of a label.
pub open spec fn digit(v: u8) -> char {
    if v == 0 {
        '0'
    } else if v == 1 {
        '1'
    } else if v == 2 {
        '2'
    } else if v == 3 {
        '3'
    } else if v == 4 {
        '4'
    } else if v == 5 {
        '5'
    } else if v == 6 {
        '6'
    } else if v == 7 {
        '7'
    } else {
        '8'
    }
}

/// Three rows of three labels, separated by spaces, the rows joined by newlines.
pub open spec fn display_text(s: Seq<u8>) -> Seq<char> {
    seq![
        digit(s[0]), ' ', digit(s[1]), ' ', digit(s[2]), '\n',
        digit(s[3]), ' ', digit(s[4]), ' ', digit(s[5]), '\n',
        digit(s[6]), ' ', digit(s[7]), ' ', digit(s[8]),
    ]
}

/// What follows the label of cell `k` in the text.
pub open spec fn separator(k: int) -> Seq<char> {
    if k == 2 || k == 5 {
        seq!['\n']
    } else if k < 8 {
        seq![' ']
    } else {
        Seq::empty()
    }
}

proof fn lemma_text_step(s: Seq<u8>, k: int)
    requires
        0 <= k < 9,
        s.len() == 9,
    ensures
        k < 8 ==> display_text(s).subrange(0, 2 * k) + seq![digit(s[k])] + separator(k)
            =~= display_text(s).subrange(0, 2 * k + 2),
        k == 8 ==> display_text(s).subrange(0, 2 * k) + seq![digit(s[k])] + separator(k)
            =~= display_text(s),
{
    let t = display_text(s);
    if k == 0 {
        assert(t.subrange(0, 0) + seq![digit(s[k])] + separator(k) =~= t.subrange(0, 2));
    } else if k == 1 {
        assert(t.subrange(0, 2) + seq![digit(s[k])] + separator(k) =~= t.subrange(0, 4));
    } else if k == 2 {
        assert(t.subrange(0, 4) + seq![digit(s[k])] + separator(k) =~= t.subrange(0, 6));
    } else if k == 3 {
        assert(t.subrange(0, 6) + seq![digit(s[k])] + separator(k) =~= t.subrange(0, 8));
    } else if k == 4 {
        assert(t.subrange(0, 8) + seq![digit(s[k])] + separator(k) =~= t.subrange(0, 10));
    } else if k == 5 {
        assert(t.subrange(0, 10) + seq![digit(s[k])] + separator(k) =~= t.subrange(0, 12));
    } else if k == 6 {
        assert(t.subrange(0, 12) + seq![digit(s[k])] + separator(k) =~= t.subrange(0, 14));
    } else if k == 7 {
        assert(t.subrange(0, 14) + seq![digit(s[k])] + separator(k) =~= t.subrange(0, 16));
    } else {
        assert(t.subrange(0, 16) + seq![digit(s[k])] + separator(k) =~= t);
    }
}

/// The text of one label below 9.
fn digit_str(v: u8) -> (r: &'static str)
    requires
        v < 9,
    ensures
        r@ == seq![digit(v)],
{
    proof {
        reveal_strlit("0");
        reveal_strlit("1");
        reveal_strlit("2");
        reveal_strlit("3");
        reveal_strlit("4");
        reveal_strlit("5");
        reveal_strlit("6");
        reveal_strlit("7");
        reveal_strlit("8");
    }
    if v == 0 {
        "0"
    } else if v == 1 {
        "1"
    } else if v == 2 {
        "2"
    } else if v == 3 {
        "3"
    } else if v == 4 {
        "4"
    } else if v == 5 {
        "5"
    } else if v == 6 {
        "6"
    } else if v == 7 {
        "7"
    } else {
        "8"
    }
}

impl Puzzle {
    /// The Fisher-Yates shuffle of the labels 0..8: for `i` from 8 down to 0,
    /// cell `i` is swapped with cell `draws[i] % (i + 1)`.
    pub fn shuffle(draws: [u8; 9]) -> (r: Self)
        ensures
            r.state@ == fisher_yates(draws@),
            r.wf(),
    {
        let mut state: [u8; 9] = [0, 1, 2, 3, 4, 5, 6, 7, 8];
        assert(state@ =~= identity());
        assert(is_permutation(state@)) by {
            assert forall|v: u8| v < 9 implies #[trigger] state@.contains(v) by {
                assert(state@[v as int] == v);
            }
        }
        let mut i: usize = 9;
        while i > 0
            invariant
                i <= 9,
                is_permutation(state@),
                state@ == shuffled(draws@, i as int),
            decreases i,
        {
            i = i - 1;
            let pos = (draws[i] % (i + 1) as u8) as usize;
            proof {
                lemma_swap_permutation(state@, i as int, pos as int);
            }
            let ghost before = state@;
            let a = state[i];
            let b = state[pos];
            state[i] = b;
            state[pos] = a;
            assert(state@ =~= before.update(i as int, before[pos as int]).update(
                pos as int,
                before[i as int],
            ));
        }
        Puzzle { state }
    }

    /// A shuffled arrangement from nine random draws; it may be unsolvable.
    pub fn rand_puzzle() -> (r: Self)
        ensures
            r.wf(),
            exists|d: Seq<u8>| d.len() == 9 && r.state@ == fisher_yates(d),
    {
        let mut draws: [u8; 9] = [0; 9];
        let mut i: usize = 9;
        while i > 0
            invariant
                i <= 9,
            decreases i,
        {
            i = i - 1;
            draws[i] = rand::random::<u8>();
        }
        let r = Self::shuffle(draws);
        assert(draws@.len() == 9 && r.state@ == fisher_yates(draws@));
        r
    }

    /// Three rows of three labels, separated by spaces, the rows joined by newlines.
    pub fn display(&self) -> (r: String)
        requires
            self.wf(),
        ensures
            r@ == display_text(self.state@),
    {
        let ghost text = display_text(self.state@);
        let mut r = String::new();
        let mut i: usize = 0;
        while i < 9
            invariant
                i <= 9,
                self.wf(),
                text == display_text(self.state@),
                i < 9 ==> r@ == text.subrange(0, 2 * i as int),
                i == 9 ==> r@ == text,
            decreases 9 - i,
        {
            proof {
                lemma_text_step(self.state@, i as int);
                reveal_strlit(" ");
                reveal_strlit("\n");
            }
            let ghost r0 = r@;
            r.append(digit_str(self.state[i]));
            if i == 2 || i == 5 {
                r.append("\n");
            } else if i < 8 {
                r.append(" ");
            }
            assert(r@ =~= r0 + seq![digit(self.state@[i as int])] + separator(i as int));
            i = i + 1;
        }
        r
    }

    /// The arrangement is a permutation of the labels 0..8.
    pub open spec fn wf(&self) -> bool {
        is_permutation(self.state@)
    }

    /// Wraps an arrangement given by the caller as it is.
    pub fn from_state(state: [u8; 9]) -> (r: Self)
        ensures
            r.state@ == state@,
    {
        Puzzle { state }
    }

    /// The labels, index by index.
    pub fn tiles(&self) -> (r: [u8; 9])
        ensures
            r@ == self.state@,
    {
        self.state
    }

    /// Whether label `i` stands at index `i` for every index.
    pub fn is_solved(&self) -> (r: bool)
        ensures
            r == is_goal(self.state@),
    {
        let mut i: usize = 0;
        while i < 9
            invariant
                i <= 9,
                forall|j: int| 0 <= j < i ==> #[trigger] self.state@[j] == j,
            decreases 9 - i,
        {
            if self.state[i] as usize != i {
                return false;
            }
            i = i + 1;
        }
        true
    }

    /// Sum of the Manhattan distances of all labels from their home cells.
    pub fn heuristic(&self) -> (r: u8)
        requires
            self.wf(),
        ensures
            r as int == distance(self.state@),
    {
        let mut cost: u8 = 0;
        let mut i: usize = 0;
        while i < 9
            invariant
                i <= 9,
                self.wf(),
                cost as int == distance_upto(self.state@, i as int),
                cost <= 4 * i,
            decreases 9 - i,
        {
            let num = self.state[i] as usize;
            let (r1, c1) = (num / 3, num % 3);
            let (r2, c2) = (i / 3, i % 3);
            let dr = if r1 >= r2 {
                r1 - r2
            } else {
                r2 - r1
            };
            let dc = if c1 >= c2 {
                c1 - c2
            } else {
                c2 - c1
            };
            assert(dr <= 2 && dc <= 2);
            cost = cost + (dr + dc) as u8;
            i = i + 1;
        }
        cost
    }

    /// Moves the blank, which stands at `index`, one cell in direction `dir`.
    pub fn move_(self, dir: Dir, index: u8) -> (r: Self)
        requires
            self.wf(),
            index < 9,
            self.state@[index as int] == BLANK,
            can_move(index as int, dir),
        ensures
            r.state@ == slide(self.state@, index as int, dir),
            r.wf(),
    {
        proof {
            lemma_slide_permutation(self.state@, index as int, dir);
        }
        let mut state = self.state;
        let index = index as usize;
        let other = match dir {
            Dir::Up => index - 3,
            Dir::Down => index + 3,
            Dir::Left => index - 1,
            Dir::Right => index + 1,
        };
        let moved = state[other];
        state[index] = moved;
        state[other] = BLANK;
        assert(state@ =~= slide(self.state@, index as int, dir));
        Puzzle { state }
    }

    /// The index of the blank.
    pub fn blank(&self) -> (r: u8)
        requires
            self.wf(),
        ensures
            r < 9,
            r as int == blank_index(self.state@),
    {
        proof {
            lemma_has_blank(self.state@);
        }
        let mut i: usize = 0;
        while i < 9
            invariant
                i <= 9,
                self.wf(),
                forall|j: int| 0 <= j < i ==> #[trigger] self.state@[j] != BLANK,
            decreases 9 - i,
        {
            if self.state[i] == BLANK {
                proof {
                    lemma_blank_index(self.state@, i as int);
                }
                return i as u8;
            }
            i = i + 1;
        }
        assert(self.state@[blank_index(self.state@)] == BLANK);
        0
    }

    /// Finds the blank, then moves it one cell in direction `dir`.
    pub fn move__(self, dir: Dir) -> (r: Self)
        requires
            self.wf(),
            can_move(blank_index(self.state@), dir),
        ensures
            r.state@ == slide(self.state@, blank_index(self.state@), dir),
            r.wf(),
    {
        let index = self.blank();
        proof {
            lemma_has_blank(self.state@);
        }
        self.move_(dir, index)
    }
}

} // verus!

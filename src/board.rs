//! The board: 81 cells and the set of fixed clues that must never change.

use vstd::prelude::*;

verus! {

/// Number of cells on a board.
pub const BOARD_SIZE: usize = 81;

/// Width (and height) of the grid.
pub const WIDTH_SIZE: u8 = 9;

/// Number of units: nine rows, nine columns and nine boxes.
pub const UNIT_COUNT: usize = 27;

/// A row, column or box that holds the same digit twice.
#[derive(PartialEq, Eq, Structural, Debug, Clone, Copy)]
pub enum BoardInvalid {
    Square(u8),
    Row(u8),
    Col(u8),
}

/// Recoverable failures of the board layer.
#[derive(PartialEq, Eq, Structural, Debug, Clone, Copy)]
pub enum BoardError {
    /// A write would change the value of a clue.
    ClueViolation,
    /// The text holds more than 81 numbers.
    TooManyNumbers,
    /// The text holds fewer than 81 numbers.
    TooFewNumbers,
    /// A number of the text lies outside `[0, 9]`.
    NumberOutOfRange,
    /// A token of the text is not a number.
    NotANumber,
}

/// Position of cell `k` (0..9) of unit `u` (0..27): rows first, then columns, then boxes.
pub open spec fn unit_cell(u: int, k: int) -> int {
    if u < 9 {
        u * 9 + k
    } else if u < 18 {
        k * 9 + (u - 9)
    } else {
        ((u - 18) / 3 * 3 + k / 3) * 9 + (u - 18) % 3 * 3 + k % 3
    }
}

/// Index of the box holding cell (r, c).
pub open spec fn box_index(r: int, c: int) -> int {
    r / 3 * 3 + c / 3
}

/// Unit `u` holds some non-zero digit twice.
pub open spec fn unit_has_dup(cells: Seq<u8>, u: int) -> bool {
    exists|i: int, j: int|
        0 <= i < j < 9 && cells[unit_cell(u, i)] != 0 && #[trigger] cells[unit_cell(u, i)]
            == #[trigger] cells[unit_cell(u, j)]
}

/// No unit holds a non-zero digit twice (empty cells are allowed).
pub open spec fn consistent(cells: Seq<u8>) -> bool {
    forall|u: int| 0 <= u < 27 ==> !#[trigger] unit_has_dup(cells, u)
}

/// Every cell holds a digit 1..=9 and no unit repeats one.
pub open spec fn solved(cells: Seq<u8>) -> bool {
    &&& cells.len() == 81
    &&& forall|p: int| 0 <= p < 81 ==> 1 <= #[trigger] cells[p] <= 9
    &&& consistent(cells)
}

/// `s` is a solved grid that keeps every filled cell of `cells`.
pub open spec fn is_completion(cells: Seq<u8>, s: Seq<u8>) -> bool {
    &&& solved(s)
    &&& forall|q: int| 0 <= q < 81 && cells[q] != 0 ==> #[trigger] s[q] == cells[q]
}

pub open spec fn has_completion(cells: Seq<u8>) -> bool {
    exists|s: Seq<u8>| is_completion(cells, s)
}

/// All solved grids that complete `cells`.
pub open spec fn completions(cells: Seq<u8>) -> Set<Seq<u8>> {
    Set::new(|s: Seq<u8>| is_completion(cells, s))
}

/// Grid `a` comes before grid `b` when read cell by cell, row by row.
pub open spec fn lex_less(a: Seq<u8>, b: Seq<u8>) -> bool {
    exists|k: int|
        0 <= k < 81 && #[trigger] a[k] < b[k] && forall|i: int| 0 <= i < k ==> #[trigger] a[i]
            == b[i]
}

/// At least two different solved grids complete `cells`.
pub open spec fn has_two_completions(cells: Seq<u8>) -> bool {
    exists|s1: Seq<u8>, s2: Seq<u8>| is_completion(cells, s1) && is_completion(cells, s2) && s1 != s2
}

/// The violation reported for unit `u`.
pub open spec fn violation_of(u: int) -> BoardInvalid {
    if u < 9 {
        BoardInvalid::Row(u as u8)
    } else if u < 18 {
        BoardInvalid::Col((u - 9) as u8)
    } else {
        BoardInvalid::Square((u - 18) as u8)
    }
}

/// The violations among the first `n` units, in unit order.
pub open spec fn violations_upto(cells: Seq<u8>, n: int) -> Seq<BoardInvalid>
    decreases n,
{
    if n <= 0 {
        seq![]
    } else {
        violations_upto(cells, n - 1) + if unit_has_dup(cells, n - 1) {
            seq![violation_of(n - 1)]
        } else {
            seq![]
        }
    }
}

/// The non-zero cells among the first `n`, as (position, value) clues in scan order.
pub open spec fn clues_upto(cells: Seq<u8>, n: int) -> Seq<(u8, u8)>
    decreases n,
{
    if n <= 0 {
        seq![]
    } else {
        clues_upto(cells, n - 1) + if cells[n - 1] != 0 {
            seq![((n - 1) as u8, cells[n - 1])]
        } else {
            seq![]
        }
    }
}

/// A 9x9 Sudoku board with its fixed clues.
pub struct Board {
    board: [u8; BOARD_SIZE],
    invariant: Vec<(u8, u8)>,
}

/// Cell (r, c) as a position in `[0, 81)`.
pub fn linearize(r: u8, c: u8) -> (p: u8)
    requires
        r < 9,
        c < 9,
    ensures
        p == r * 9 + c,
        p < 81,
{
    r * WIDTH_SIZE + c
}

/// Position of cell `k` of unit `u`.
pub fn unit_pos(u: usize, k: usize) -> (p: usize)
    requires
        u < 27,
        k < 9,
    ensures
        p == unit_cell(u as int, k as int),
        p < 81,
{
    if u < 9 {
        u * 9 + k
    } else if u < 18 {
        k * 9 + (u - 9)
    } else {
        let b = u - 18;
        (b / 3 * 3 + k / 3) * 9 + b % 3 * 3 + k % 3
    }
}

impl Board {
    /// The 81 cells, row by row.
    pub closed spec fn cells(&self) -> Seq<u8> {
        self.board@
    }

    /// The clues as (position, value) pairs.
    pub closed spec fn clues(&self) -> Seq<(u8, u8)> {
        self.invariant@
    }

    pub proof fn lemma_len(&self)
        ensures
            self.cells().len() == 81,
    {
    }

    /// Cells hold 0..=9; clues sit at distinct positions on the board and hold 1..=9.
    pub open spec fn wf(&self) -> bool {
        &&& self.cells().len() == 81
        &&& forall|p: int| 0 <= p < 81 ==> #[trigger] self.cells()[p] <= 9
        &&& valid_clues(self.clues())
    }

    /// Every clue's cell holds the clue's value.
    pub open spec fn clues_hold(&self) -> bool {
        forall|i: int|
            0 <= i < self.clues().len() ==> self.cells()[#[trigger] self.clues()[i].0 as int]
                == self.clues()[i].1
    }

    /// Some clue at position `p` holds a value other than `val`.
    pub open spec fn clue_differs(&self, p: int, val: u8) -> bool {
        exists|i: int|
            0 <= i < self.clues().len() && #[trigger] self.clues()[i].0 == p && self.clues()[i].1
                != val
    }

    pub open spec fn is_clue_pos(&self, p: int) -> bool {
        exists|i: int| 0 <= i < self.clues().len() && #[trigger] self.clues()[i].0 == p
    }

    /// What `verify` checks: the clues hold and the grid is solved.
    pub open spec fn verified(&self) -> bool {
        self.clues_hold() && solved(self.cells())
    }

    pub fn new(board: [u8; BOARD_SIZE], invariant: Vec<(u8, u8)>) -> (b: Board)
        requires
            forall|p: int| 0 <= p < 81 ==> #[trigger] board@[p] <= 9,
            valid_clues(invariant@),
        ensures
            b.wf(),
            b.cells() == board@,
            b.clues() == invariant@,
    {
        Board { board, invariant }
    }

    pub fn empty() -> (b: Board)
        ensures
            b.wf(),
            b.cells() == Seq::new(81, |p: int| 0u8),
            b.clues().len() == 0,
    {
        let b = Board { board: [0u8; BOARD_SIZE], invariant: Vec::new() };
        assert(b.cells() =~= Seq::new(81, |p: int| 0u8));
        b
    }

    /// Whether every clue's cell still holds the clue's value.
    pub fn check_invariants(&self) -> (r: bool)
        requires
            self.wf(),
        ensures
            r == self.clues_hold(),
    {
        let mut i: usize = 0;
        while i < self.invariant.len()
            invariant
                self.wf(),
                0 <= i <= self.clues().len(),
                forall|j: int|
                    0 <= j < i ==> self.cells()[#[trigger] self.clues()[j].0 as int]
                        == self.clues()[j].1,
            decreases self.clues().len() - i,
        {
            let (p, v) = self.invariant[i];
            if self.board[p as usize] != v {
                return false;
            }
            i += 1;
        }
        true
    }

    /// The digit at (r, c), 0 for an empty cell.
    pub fn get(&self, r: u8, c: u8) -> (v: u8)
        requires
            r < 9,
            c < 9,
        ensures
            v == self.cells()[r * 9 + c],
    {
        self.board[linearize(r, c) as usize]
    }

    /// The digit at position `p` (row-major).
    pub fn at(&self, p: usize) -> (v: u8)
        requires
            p < 81,
        ensures
            v == self.cells()[p as int],
    {
        self.board[p]
    }

    /// Whether some clue at position `p` holds a value other than `val`.
    fn clue_differs_at(&self, p: u8, val: u8) -> (r: bool)
        ensures
            r == self.clue_differs(p as int, val),
    {
        let mut i: usize = 0;
        while i < self.invariant.len()
            invariant
                0 <= i <= self.clues().len(),
                forall|j: int|
                    0 <= j < i ==> !(#[trigger] self.clues()[j].0 == p && self.clues()[j].1 != val),
            decreases self.clues().len() - i,
        {
            if self.invariant[i].0 == p && self.invariant[i].1 != val {
                return true;
            }
            i += 1;
        }
        false
    }

    /// Writes `val` at (r, c); refused where a clue at (r, c) holds another value.
    pub fn set(&mut self, r: u8, c: u8, val: u8) -> (res: Result<(), BoardError>)
        requires
            old(self).wf(),
            r < 9,
            c < 9,
            val <= 9,
        ensures
            final(self).wf(),
            final(self).clues() == old(self).clues(),
            res is Err <==> old(self).clue_differs(r * 9 + c, val),
            res is Err ==> res == Err::<(), BoardError>(BoardError::ClueViolation)
                && final(self).cells() == old(self).cells(),
            res is Ok ==> final(self).cells() == old(self).cells().update(r * 9 + c, val),
    {
        let p = linearize(r, c);
        if self.clue_differs_at(p, val) {
            return Err(BoardError::ClueViolation);
        }
        self.board[p as usize] = val;
        Ok(())
    }

    /// Writes `val` at position `p` whatever the clues say: the search's own
    /// tentative writes, which it always undoes or completes.
    pub(crate) fn put(&mut self, p: usize, val: u8)
        requires
            old(self).wf(),
            p < 81,
            val <= 9,
        ensures
            final(self).wf(),
            final(self).clues() == old(self).clues(),
            final(self).cells() == old(self).cells().update(p as int, val),
    {
        self.board[p] = val;
    }

    /// Empties every cell, then writes each clue back.
    pub fn reset(&mut self)
        requires
            old(self).wf(),
        ensures
            final(self).wf(),
            final(self).clues() == old(self).clues(),
            final(self).clues_hold(),
            forall|p: int|
                0 <= p < 81 && !old(self).is_clue_pos(p) ==> #[trigger] final(self).cells()[p]
                    == 0,
    {
        self.board = [0u8; BOARD_SIZE];
        let mut i: usize = 0;
        while i < self.invariant.len()
            invariant
                self.wf(),
                self.clues() == old(self).clues(),
                0 <= i <= self.clues().len(),
                forall|j: int|
                    0 <= j < i ==> self.cells()[#[trigger] self.clues()[j].0 as int]
                        == self.clues()[j].1,
                forall|p: int|
                    0 <= p < 81 && !(exists|j: int|
                        0 <= j < i && #[trigger] self.clues()[j].0 == p) ==> #[trigger] self.cells()[p]
                        == 0,
            decreases self.clues().len() - i,
        {
            let (p, v) = self.invariant[i];
            self.board[p as usize] = v;
            i += 1;
            proof {
                assert forall|p: int|
                    0 <= p < 81 && !(exists|j: int|
                        0 <= j < i && #[trigger] self.clues()[j].0 == p) implies #[trigger] self.cells()[p]
                    == 0 by {
                    if p == self.clues()[i - 1].0 {
                        assert(self.clues()[i - 1].0 == p);
                    }
                }
            }
        }
    }
}

impl Board {
    /// Makes the non-zero cells the board's clues, in position order.
    pub fn fix_clues(&mut self)
        requires
            old(self).wf(),
        ensures
            final(self).wf(),
            final(self).cells() == old(self).cells(),
            final(self).clues() == clues_upto(old(self).cells(), 81),
            final(self).clues_hold(),
    {
        let mut clues: Vec<(u8, u8)> = Vec::new();
        let mut p: usize = 0;
        while p < BOARD_SIZE
            invariant
                self.wf(),
                self.cells() == old(self).cells(),
                0 <= p <= 81,
                clues@ == clues_upto(self.cells(), p as int),
                forall|j: int|
                    0 <= j < clues@.len() ==> #[trigger] clues@[j].0 < p && 1 <= clues@[j].1 <= 9
                        && self.cells()[clues@[j].0 as int] == clues@[j].1,
                forall|a: int, b: int|
                    0 <= a < b < clues@.len() ==> #[trigger] clues@[a].0 < #[trigger] clues@[b].0,
            decreases 81 - p,
        {
            let v = self.board[p];
            if v != 0 {
                clues.push((p as u8, v));
            }
            p += 1;
        }
        self.invariant = clues;
    }

    /// Whether unit `u` holds some non-zero digit twice.
    pub fn unit_dup(&self, u: usize) -> (r: bool)
        requires
            self.wf(),
            u < 27,
        ensures
            r == unit_has_dup(self.cells(), u as int),
    {
        let ghost cells = self.cells();
        let mut i: usize = 0;
        while i < 9
            invariant
                self.wf(),
                u < 27,
                cells == self.cells(),
                0 <= i <= 9,
                forall|i2: int, j2: int|
                    0 <= i2 < i && i2 < j2 < 9 ==> !(cells[unit_cell(u as int, i2)] != 0
                        && #[trigger] cells[unit_cell(u as int, i2)] == #[trigger] cells[unit_cell(
                        u as int,
                        j2,
                    )]),
            decreases 9 - i,
        {
            let a = self.board[unit_pos(u, i)];
            if a != 0 {
                let mut j: usize = i + 1;
                while j < 9
                    invariant
                        self.wf(),
                        u < 27,
                        i < 9,
                        cells == self.cells(),
                        a == cells[unit_cell(u as int, i as int)],
                        a != 0,
                        i + 1 <= j <= 9,
                        forall|j2: int| i < j2 < j ==> #[trigger] cells[unit_cell(u as int, j2)] != a,
                    decreases 9 - j,
                {
                    if self.board[unit_pos(u, j)] == a {
                        let ghost ii = i as int;
                        let ghost jj = j as int;
                        assert(0 <= ii < jj < 9 && cells[unit_cell(u as int, ii)] != 0
                            && cells[unit_cell(u as int, ii)] == cells[unit_cell(u as int, jj)]);
                        return true;
                    }
                    j += 1;
                }
            }
            i += 1;
        }
        false
    }

    /// Whether some row, column or box holds a non-zero digit twice.
    pub fn has_conflict(&self) -> (r: bool)
        requires
            self.wf(),
        ensures
            r == !consistent(self.cells()),
    {
        let mut u: usize = 0;
        while u < UNIT_COUNT
            invariant
                self.wf(),
                0 <= u <= 27,
                forall|v: int| 0 <= v < u ==> !#[trigger] unit_has_dup(self.cells(), v),
            decreases 27 - u,
        {
            if self.unit_dup(u) {
                return true;
            }
            u += 1;
        }
        false
    }

    /// Whether the board is completely and correctly solved, with its clues in place.
    pub fn verify(&self) -> (r: bool)
        requires
            self.wf(),
        ensures
            r == self.verified(),
    {
        if !self.check_invariants() {
            return false;
        }
        let mut p: usize = 0;
        while p < BOARD_SIZE
            invariant
                self.wf(),
                0 <= p <= 81,
                forall|q: int| 0 <= q < p ==> 1 <= #[trigger] self.cells()[q] <= 9,
            decreases 81 - p,
        {
            if self.board[p] == 0 || self.board[p] > 9 {
                return false;
            }
            p += 1;
        }
        !self.has_conflict()
    }

    /// Lists the rows, columns and boxes that repeat a digit; empty cells are no violation.
    /// The flag is true when the list is empty.
    pub fn verbose_verify(&self) -> (r: (bool, Vec<BoardInvalid>))
        requires
            self.wf(),
        ensures
            r.1@ == violations_upto(self.cells(), 27),
            r.0 == (r.1@.len() == 0),
            r.0 == consistent(self.cells()),
    {
        let mut v: Vec<BoardInvalid> = Vec::new();
        let mut u: usize = 0;
        while u < UNIT_COUNT
            invariant
                self.wf(),
                0 <= u <= 27,
                v@ == violations_upto(self.cells(), u as int),
                v@.len() == 0 <==> forall|w: int| 0 <= w < u ==> !#[trigger] unit_has_dup(self.cells(), w),
            decreases 27 - u,
        {
            if self.unit_dup(u) {
                let k = u as u8;
                if u < 9 {
                    v.push(BoardInvalid::Row(k));
                } else if u < 18 {
                    v.push(BoardInvalid::Col(k - 9));
                } else {
                    v.push(BoardInvalid::Square(k - 18));
                }
            }
            u += 1;
            assert(violations_upto(self.cells(), u as int) == violations_upto(self.cells(), u - 1)
                + if unit_has_dup(self.cells(), u - 1) {
                seq![violation_of(u - 1)]
            } else {
                seq![]
            });
        }
        let ok = v.len() == 0;
        (ok, v)
    }
}

/// A write is refused exactly when a clue at its position holds another value;
/// on a board whose clues hold, writing a clue's own value changes nothing.
pub proof fn lemma_clue_write(b: &Board, r: int, c: int, val: u8)
    requires
        b.wf(),
        0 <= r < 9,
        0 <= c < 9,
    ensures
        b.clue_differs(r * 9 + c, val) <==> exists|i: int|
            0 <= i < b.clues().len() && #[trigger] b.clues()[i].0 == r * 9 + c && b.clues()[i].1
                != val,
        b.clues_hold() ==> forall|i: int|
            0 <= i < b.clues().len() && #[trigger] b.clues()[i].0 == r * 9 + c && b.clues()[i].1
                == val ==> b.cells().update(r * 9 + c, val) == b.cells(),
{
    if b.clues_hold() {
        assert forall|i: int|
            0 <= i < b.clues().len() && #[trigger] b.clues()[i].0 == r * 9 + c && b.clues()[i].1
                == val implies b.cells().update(r * 9 + c, val) == b.cells() by {
            assert(b.cells()[b.clues()[i].0 as int] == b.clues()[i].1);
            assert(b.cells().update(r * 9 + c, val) =~= b.cells());
        }
    }
}

/// A board with an empty cell never passes `verify`.
pub proof fn lemma_empty_cell_unverified(b: &Board, p: int)
    requires
        0 <= p < 81,
        b.cells()[p] == 0,
    ensures
        !b.verified(),
{
}

/// Clues sit at distinct positions of the board and hold digits 1..=9.
pub open spec fn valid_clues(clues: Seq<(u8, u8)>) -> bool {
    &&& forall|i: int| 0 <= i < clues.len() ==> #[trigger] clues[i].0 < 81 && 1 <= clues[i].1 <= 9
    &&& forall|i: int, j: int|
        0 <= i < j < clues.len() ==> #[trigger] clues[i].0 != #[trigger] clues[j].0
}

} // verus!

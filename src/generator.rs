//! Random puzzle generation: a fully solved grid, then clues removed one at a
//! time while the solution stays unique.

use vstd::prelude::*;
use chrono::Local;
use rand::seq::SliceRandom;
use rand::{Rng, SeedableRng};
use rand_chacha::ChaCha8Rng;
use crate::candidate::{lemma_completion_legal, lemma_legal_upto_contains, lemma_write_legal, legal_upto, legal_values};
use crate::solver::{lemma_full_grid, lemma_completion_update, BTSolver};
use crate::board::{
    clues_upto, completions, consistent, has_completion, has_two_completions, is_completion, solved,
    unit_cell, unit_has_dup, Board, BOARD_SIZE,
};

verus! {

/// Failed removal attempts in a row after which puncturing stops.
pub const PUNCTURE_MAX_ATTEMPTS: u8 = 15;

#[verifier::external_type_specification]
#[verifier::external_body]
pub struct ExChaCha8Rng(ChaCha8Rng);

/// Relies on rand_core's `SeedableRng::seed_from_u64` for `ChaCha8Rng`: a generator
/// seeded from `seed`. Nothing is stated of its state.
#[verifier::external_body]
fn seeded_rng(seed: u64) -> ChaCha8Rng {
    ChaCha8Rng::seed_from_u64(seed)
}

/// Relies on rand's `Rng::gen::<u8>`: a random byte. Nothing is stated of its value.
#[verifier::external_body]
fn random_byte(rng: &mut ChaCha8Rng) -> u8 {
    rng.gen::<u8>()
}

/// Relies on rand's `SliceRandom::shuffle`: the elements are permuted in place
/// (it only swaps elements).
#[verifier::external_body]
fn shuffle(v: &mut Vec<u8>, rng: &mut ChaCha8Rng)
    ensures
        final(v)@.to_multiset() == old(v)@.to_multiset(),
{
    v.shuffle(rng);
}

/// Every element of a permutation of `a` is an element of `a`.
proof fn lemma_permuted_member(a: Seq<u8>, b: Seq<u8>, i: int)
    requires
        a.to_multiset() == b.to_multiset(),
        0 <= i < b.len(),
    ensures
        a.contains(b[i]),
{
    broadcast use vstd::seq_lib::group_to_multiset_ensures;

    assert(b.contains(b[i]));
    assert(b.to_multiset().count(b[i]) > 0);
    assert(a.to_multiset().count(b[i]) > 0);
}

/// The number of non-zero cells among the first `n`.
pub open spec fn filled_count(cells: Seq<u8>, n: int) -> nat
    decreases n,
{
    if n <= 0 {
        0
    } else {
        filled_count(cells, n - 1) + if cells[n - 1] != 0 {
            1nat
        } else {
            0nat
        }
    }
}

proof fn lemma_filled_count_clear(cells: Seq<u8>, p: int, n: int)
    requires
        cells.len() == 81,
        0 <= p < 81,
        cells[p] != 0,
        0 <= n <= 81,
    ensures
        filled_count(cells.update(p, 0), n) + (if p < n {
            1nat
        } else {
            0nat
        }) == filled_count(cells, n),
    decreases n,
{
    if n > 0 {
        lemma_filled_count_clear(cells, p, n - 1);
    }
}

/// The digit of the fixed solved grid at position `p`.
pub open spec fn pattern_digit(p: int) -> int {
    ((p / 9) % 3 * 3 + (p / 9) / 3 + p % 9) % 9 + 1
}

proof fn lemma_div_mod_9(r: int, c: int)
    requires
        0 <= r,
        0 <= c < 9,
    ensures
        (r * 9 + c) / 9 == r,
        (r * 9 + c) % 9 == c,
{
}

proof fn lemma_shift_mod_9(k: int, i: int, j: int)
    requires
        0 <= k,
        0 <= i < j < 9,
    ensures
        (k + i) % 9 != (k + j) % 9,
{
}

proof fn lemma_div_mod_3(i: int)
    requires
        0 <= i < 9,
    ensures
        i == i / 3 * 3 + i % 3,
        0 <= i / 3 < 3,
        0 <= i % 3 < 3,
{
}

proof fn lemma_pattern_row(u: int, i: int, j: int)
    requires
        0 <= u < 9,
        0 <= i < j < 9,
    ensures
        pattern_digit(u * 9 + i) != pattern_digit(u * 9 + j),
{
    lemma_div_mod_9(u, i);
    lemma_div_mod_9(u, j);
    lemma_shift_mod_9(u % 3 * 3 + u / 3, i, j);
}

proof fn lemma_pattern_col(c: int, i: int, j: int)
    requires
        0 <= c < 9,
        0 <= i < j < 9,
    ensures
        pattern_digit(i * 9 + c) != pattern_digit(j * 9 + c),
{
    lemma_div_mod_9(i, c);
    lemma_div_mod_9(j, c);
    lemma_div_mod_3(i);
    lemma_div_mod_3(j);
    let a = i % 3 * 3 + i / 3;
    let b = j % 3 * 3 + j / 3;
    assert(a != b);
    if a < b {
        lemma_shift_mod_9(c, a, b);
    } else {
        lemma_shift_mod_9(c, b, a);
    }
}

proof fn lemma_pattern_box(bx: int, i: int, j: int)
    requires
        0 <= bx < 9,
        0 <= i < j < 9,
    ensures
        pattern_digit((bx / 3 * 3 + i / 3) * 9 + bx % 3 * 3 + i % 3) != pattern_digit(
            (bx / 3 * 3 + j / 3) * 9 + bx % 3 * 3 + j % 3,
        ),
{
    lemma_div_mod_3(bx);
    lemma_div_mod_3(i);
    lemma_div_mod_3(j);
    let e = bx / 3 + bx % 3 * 3;
    let ri = bx / 3 * 3 + i / 3;
    let ci = bx % 3 * 3 + i % 3;
    let rj = bx / 3 * 3 + j / 3;
    let cj = bx % 3 * 3 + j % 3;
    lemma_div_mod_9(ri, ci);
    lemma_div_mod_9(rj, cj);
    assert(ri / 3 == bx / 3 && ri % 3 == i / 3);
    assert(rj / 3 == bx / 3 && rj % 3 == j / 3);
    lemma_shift_mod_9(e, i, j);
}

proof fn lemma_pattern_unit(u: int, i: int, j: int)
    requires
        0 <= u < 27,
        0 <= i < j < 9,
    ensures
        pattern_digit(unit_cell(u, i)) != pattern_digit(unit_cell(u, j)),
{
    if u < 9 {
        lemma_pattern_row(u, i, j);
    } else if u < 18 {
        lemma_pattern_col(u - 9, i, j);
    } else {
        lemma_pattern_box(u - 18, i, j);
    }
}

/// The fixed grid is solved.
proof fn lemma_pattern_solved(cells: Seq<u8>)
    requires
        cells.len() == 81,
        forall|p: int| 0 <= p < 81 ==> #[trigger] cells[p] == pattern_digit(p),
    ensures
        solved(cells),
{
    assert forall|u: int| 0 <= u < 27 implies !#[trigger] unit_has_dup(cells, u) by {
        if unit_has_dup(cells, u) {
            let (i, j) = choose|i: int, j: int|
                0 <= i < j < 9 && cells[unit_cell(u, i)] != 0 && #[trigger] cells[unit_cell(u, i)]
                    == #[trigger] cells[unit_cell(u, j)];
            crate::candidate::lemma_unit_cell_range(u, i);
            crate::candidate::lemma_unit_cell_range(u, j);
            lemma_pattern_unit(u, i, j);
        }
    }
}

/// Position of cell `k` (0..9, row by row) of the 3x3 box whose top-left cell is (r, c).
pub open spec fn box_pos(r: int, c: int, k: int) -> int {
    (r + k / 3) * 9 + c + k % 3
}

/// The nine digits of the box whose top-left cell is (r, c), row by row.
pub open spec fn box_digits(cells: Seq<u8>, r: int, c: int) -> Seq<u8> {
    Seq::new(9, |k: int| cells[box_pos(r, c, k)])
}

/// The digits 1..=9 in order.
pub open spec fn one_to_nine() -> Seq<u8> {
    Seq::new(9, |i: int| (i + 1) as u8)
}

/// Exactly one solved grid completes `cells`.
pub open spec fn unique_completion(cells: Seq<u8>) -> bool {
    has_completion(cells) && !has_two_completions(cells)
}

proof fn lemma_box_pos(r: int, c: int, k: int)
    requires
        0 <= r <= 6,
        0 <= c <= 6,
        0 <= k < 9,
    ensures
        0 <= box_pos(r, c, k) < 81,
        forall|j: int| 0 <= j < 9 && j != k ==> #[trigger] box_pos(r, c, j) != box_pos(r, c, k),
{
    lemma_div_mod_3(k);
    assert forall|j: int| 0 <= j < 9 && j != k implies #[trigger] box_pos(r, c, j) != box_pos(r, c, k) by {
        lemma_div_mod_3(j);
    }
}

/// Emptying one cell of a grid with a unique completion, and keeping the solution
/// unique, keeps the same completion.
proof fn lemma_clear_keeps_completion(cells: Seq<u8>, p: int)
    requires
        cells.len() == 81,
        0 <= p < 81,
        unique_completion(cells),
        unique_completion(cells.update(p, 0)),
    ensures
        completions(cells.update(p, 0)) == completions(cells),
{
    let n = cells.update(p, 0);
    let s0 = choose|s: Seq<u8>| is_completion(cells, s);
    assert forall|q: int| 0 <= q < 81 && n[q] != 0 implies #[trigger] s0[q] == n[q] by {
        assert(q != p);
        assert(cells[q] != 0);
    }
    assert(is_completion(n, s0));
    assert forall|t: Seq<u8>| completions(n).contains(t) <==> completions(cells).contains(t) by {
        if is_completion(n, t) && t != s0 {
            assert(has_two_completions(n));
        }
        if is_completion(cells, t) && t != s0 {
            assert(has_two_completions(cells));
        }
    }
    assert(completions(n) =~= completions(cells));
}

/// Builds puzzles from one random source, reused across calls.
pub struct Generator {
    rng: ChaCha8Rng,
}

impl Generator {
    /// A generator whose random source is seeded with `seed`.
    pub fn new(seed: u64) -> Self {
        Generator { rng: seeded_rng(seed) }
    }

    /// Relies on chrono's `Local::now` and `DateTime::timestamp`: the current time in
    /// seconds, its bits taken as a seed. Nothing is stated of its value.
    #[verifier::external_body]
    pub fn arbitrary_seed() -> u64 {
        u64::from_ne_bytes(Local::now().timestamp().to_ne_bytes())
    }

    /// A new puzzle: its non-zero cells are its clues, and it has exactly one completion.
    pub fn create(&mut self) -> (b: Board)
        ensures
            b.wf(),
            b.clues() == clues_upto(b.cells(), 81),
            b.clues_hold(),
            has_completion(b.cells()),
            !has_two_completions(b.cells()),
    {
        let mut board = Board::empty();
        self.complete_fill(&mut board);
        proof {
            lemma_full_grid(board.cells());
        }
        self.puncture(&mut board);
        board.fix_clues();
        board
    }

    /// Fills the whole board with a solved grid: three random diagonal boxes, then a
    /// randomized search for the rest. Should that search fail, a fixed solved grid is
    /// written instead.
    fn complete_fill(&mut self, board: &mut Board)
        requires
            old(board).wf(),
            old(board).clues().len() == 0,
        ensures
            final(board).wf(),
            final(board).clues().len() == 0,
            solved(final(board).cells()),
    {
        self.fill_diagonal_box(board, 0, 0);
        self.fill_diagonal_box(board, 3, 3);
        self.fill_diagonal_box(board, 6, 6);
        if board.has_conflict() || !self.fill_remaining(board, 0) {
            Self::fill_pattern(board);
        }
    }

    /// Writes a shuffled 1..=9 into the box whose top-left cell is (r, c).
    fn fill_diagonal_box(&mut self, board: &mut Board, r: u8, c: u8)
        requires
            old(board).wf(),
            r <= 6,
            c <= 6,
        ensures
            final(board).wf(),
            final(board).clues() == old(board).clues(),
            box_digits(final(board).cells(), r as int, c as int).to_multiset()
                == one_to_nine().to_multiset(),
            forall|q: int|
                0 <= q < 81 && (forall|k: int| 0 <= k < 9 ==> q != #[trigger] box_pos(r as int, c as int, k))
                    ==> #[trigger] final(board).cells()[q] == old(board).cells()[q],
    {
        let mut vals: Vec<u8> = Vec::new();
        let mut d: u8 = 1;
        while d <= 9
            invariant
                1 <= d <= 10,
                vals@.len() == d - 1,
                forall|i: int| 0 <= i < vals@.len() ==> #[trigger] vals@[i] == i + 1,
            decreases 10 - d,
        {
            vals.push(d);
            d += 1;
        }
        assert(vals@ =~= one_to_nine());
        shuffle(&mut vals, &mut self.rng);
        proof {
            broadcast use vstd::seq_lib::group_to_multiset_ensures;

            assert(vals@.len() == vals@.to_multiset().len());
            assert(one_to_nine().len() == one_to_nine().to_multiset().len());
            assert forall|i: int| 0 <= i < vals@.len() implies #[trigger] vals@[i] <= 9 by {
                lemma_permuted_member(one_to_nine(), vals@, i);
            }
        }
        Self::write_box(board, r, c, &vals);
    }

    /// Writes `vals` into the box whose top-left cell is (r, c), row by row.
    pub fn write_box(board: &mut Board, r: u8, c: u8, vals: &Vec<u8>)
        requires
            old(board).wf(),
            r <= 6,
            c <= 6,
            vals@.len() == 9,
            forall|i: int| 0 <= i < 9 ==> #[trigger] vals@[i] <= 9,
        ensures
            final(board).wf(),
            final(board).clues() == old(board).clues(),
            box_digits(final(board).cells(), r as int, c as int) == vals@,
            forall|q: int|
                0 <= q < 81 && (forall|k: int| 0 <= k < 9 ==> q != #[trigger] box_pos(r as int, c as int, k))
                    ==> #[trigger] final(board).cells()[q] == old(board).cells()[q],
    {
        let mut k: usize = 0;
        while k < 9
            invariant
                board.wf(),
                board.clues() == old(board).clues(),
                r <= 6,
                c <= 6,
                vals@.len() == 9,
                forall|i: int| 0 <= i < 9 ==> #[trigger] vals@[i] <= 9,
                0 <= k <= 9,
                forall|j: int| 0 <= j < k ==> board.cells()[#[trigger] box_pos(r as int, c as int, j)] == vals@[j],
                forall|q: int|
                    0 <= q < 81 && (forall|j: int| 0 <= j < k ==> q != #[trigger] box_pos(r as int, c as int, j))
                        ==> #[trigger] board.cells()[q] == old(board).cells()[q],
            decreases 9 - k,
        {
            proof {
                lemma_box_pos(r as int, c as int, k as int);
            }
            let p = (r as usize + k / 3) * 9 + c as usize + k % 3;
            assert(p == box_pos(r as int, c as int, k as int));
            board.put(p, vals[k]);
            k += 1;
        }
        assert(box_digits(board.cells(), r as int, c as int) =~= vals@);
    }

    /// Like the solver's search, but tries the candidates of each cell in random order.
    /// On a consistent grid it succeeds exactly when a completion exists.
    fn fill_remaining(&mut self, board: &mut Board, pos: usize) -> (found: bool)
        requires
            old(board).wf(),
            consistent(old(board).cells()),
            pos <= 81,
            forall|q: int| 0 <= q < pos ==> #[trigger] old(board).cells()[q] != 0,
        ensures
            final(board).wf(),
            final(board).clues() == old(board).clues(),
            found == has_completion(old(board).cells()),
            found ==> is_completion(old(board).cells(), final(board).cells()),
            !found ==> final(board).cells() == old(board).cells(),
        decreases 81 - pos,
    {
        let ghost cells0 = board.cells();
        proof {
            board.lemma_len();
        }
        if pos == BOARD_SIZE {
            proof {
                lemma_full_grid(cells0);
            }
            return true;
        }
        if board.at(pos) != 0 {
            return self.fill_remaining(board, pos + 1);
        }
        let r = (pos / 9) as u8;
        let c = (pos % 9) as u8;
        assert(pos == r * 9 + c);
        let cands = legal_values(board, r, c);
        let mut order = cands.clone();
        shuffle(&mut order, &mut self.rng);
        let mut i: usize = 0;
        while i < order.len()
            invariant
                board.wf(),
                board.clues() == old(board).clues(),
                board.cells() == cells0,
                cells0 == old(board).cells(),
                consistent(cells0),
                pos < 81,
                pos == r * 9 + c,
                r < 9,
                c < 9,
                cells0[pos as int] == 0,
                forall|q: int| 0 <= q < pos ==> #[trigger] cells0[q] != 0,
                cands@ == legal_upto(cells0, r as int, c as int, 9),
                order@.to_multiset() == cands@.to_multiset(),
                0 <= i <= order.len(),
                forall|j: int| 0 <= j < i ==> !has_completion(#[trigger] cells0.update(pos as int, order@[j])),
            decreases order.len() - i,
        {
            let v = order[i];
            proof {
                lemma_permuted_member(cands@, order@, i as int);
                lemma_legal_upto_contains(cells0, r as int, c as int, 9, v);
                lemma_write_legal(cells0, r as int, c as int, v);
            }
            board.put(pos, v);
            if self.fill_remaining(board, pos + 1) {
                proof {
                    lemma_completion_update(cells0, pos as int, v, board.cells());
                }
                return true;
            }
            board.put(pos, 0);
            assert(board.cells() =~= cells0);
            i += 1;
        }
        proof {
            if has_completion(cells0) {
                let s = choose|s: Seq<u8>| is_completion(cells0, s);
                lemma_completion_legal(cells0, s, r as int, c as int);
                let v = s[pos as int];
                lemma_legal_upto_contains(cells0, r as int, c as int, 9, v);
                let k = choose|k: int| 0 <= k < cands@.len() && cands@[k] == v;
                lemma_permuted_member(order@, cands@, k);
                let j = choose|j: int| 0 <= j < order@.len() && order@[j] == v;
                lemma_completion_update(cells0, pos as int, v, s);
                assert(has_completion(cells0.update(pos as int, order@[j])));
            }
        }
        false
    }

    /// Writes the fixed solved grid over the whole board.
    fn fill_pattern(board: &mut Board)
        requires
            old(board).wf(),
            old(board).clues().len() == 0,
        ensures
            final(board).wf(),
            final(board).clues().len() == 0,
            solved(final(board).cells()),
    {
        let mut p: usize = 0;
        while p < BOARD_SIZE
            invariant
                board.wf(),
                board.clues().len() == 0,
                0 <= p <= 81,
                forall|q: int| 0 <= q < p ==> #[trigger] board.cells()[q] == pattern_digit(q),
            decreases 81 - p,
        {
            let row = p / 9;
            let d = ((row % 3 * 3 + row / 3 + p % 9) % 9 + 1) as u8;
            board.put(p, d);
            p += 1;
        }
        proof {
            board.lemma_len();
            lemma_pattern_solved(board.cells());
        }
    }

    /// One removal attempt at position `idx % 81`, after `attempts` failed ones. An
    /// empty cell, or one whose removal would leave zero or several completions, is
    /// a failed attempt and the board stays as it was; a kept removal restarts the
    /// count of failures.
    pub fn puncture_step(board: &mut Board, idx: u8, attempts: u8) -> (next: u8)
        requires
            old(board).wf(),
            attempts < 255,
        ensures
            final(board).wf(),
            final(board).clues() == old(board).clues(),
            old(board).cells()[(idx % 81) as int] == 0 ==> final(board).cells() == old(board).cells()
                && next == attempts + 1,
            old(board).cells()[(idx % 81) as int] != 0 && unique_completion(
                old(board).cells().update((idx % 81) as int, 0),
            ) ==> final(board).cells() == old(board).cells().update((idx % 81) as int, 0) && next
                == 0,
            old(board).cells()[(idx % 81) as int] != 0 && !unique_completion(
                old(board).cells().update((idx % 81) as int, 0),
            ) ==> final(board).cells() == old(board).cells() && next == attempts + 1,
    {
        let p = (idx % 81) as usize;
        let tmp = board.at(p);
        if tmp == 0 {
            return attempts + 1;
        }
        let ghost before = board.cells();
        proof {
            board.lemma_len();
        }
        board.put(p, 0);
        if BTSolver::num_solution(board) == 1 {
            return 0;
        }
        board.put(p, tmp);
        assert(board.cells() =~= before);
        attempts + 1
    }

    /// Empties random cells one at a time, keeping each removal only while the puzzle
    /// still has exactly one completion; stops after a run of failed attempts. Cells
    /// are only ever emptied, and the completion stays the same one.
    fn puncture(&mut self, board: &mut Board)
        requires
            old(board).wf(),
            unique_completion(old(board).cells()),
        ensures
            final(board).wf(),
            final(board).clues() == old(board).clues(),
            unique_completion(final(board).cells()),
            completions(final(board).cells()) == completions(old(board).cells()),
            forall|q: int|
                0 <= q < 81 ==> #[trigger] final(board).cells()[q] == 0 || final(board).cells()[q]
                    == old(board).cells()[q],
    {
        let mut attempts: u8 = 0;
        while attempts < PUNCTURE_MAX_ATTEMPTS
            invariant
                board.wf(),
                board.clues() == old(board).clues(),
                unique_completion(board.cells()),
                completions(board.cells()) == completions(old(board).cells()),
                forall|q: int|
                    0 <= q < 81 ==> #[trigger] board.cells()[q] == 0 || board.cells()[q]
                        == old(board).cells()[q],
                attempts <= PUNCTURE_MAX_ATTEMPTS,
            decreases filled_count(board.cells(), 81), PUNCTURE_MAX_ATTEMPTS - attempts,
        {
            let idx = random_byte(&mut self.rng);
            let ghost before = board.cells();
            proof {
                board.lemma_len();
            }
            attempts = Self::puncture_step(board, idx, attempts);
            proof {
                let p = (idx % 81) as int;
                if before[p] != 0 && unique_completion(before.update(p, 0)) {
                    lemma_filled_count_clear(before, p, 81);
                    lemma_clear_keeps_completion(before, p);
                    assert forall|q: int| 0 <= q < 81 implies #[trigger] board.cells()[q] == 0
                        || board.cells()[q] == old(board).cells()[q] by {
                        assert(q == p || board.cells()[q] == before[q]);
                    }
                }
            }
        }
    }
}

} // verus!

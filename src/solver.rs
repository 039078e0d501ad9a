//! Depth-first backtracking search over the empty cells.

use vstd::prelude::*;
use crate::board::{completions, consistent, lex_less, has_completion, has_two_completions, is_completion, Board, BOARD_SIZE};
use crate::candidate::{
    is_legal, lemma_completion_legal, lemma_conflict_no_completion, lemma_legal_upto_contains,
    lemma_legal_upto_ascending, lemma_write_legal, legal_upto, legal_values,
};

verus! {

/// A strategy that completes a board in place.
pub trait Solver {
    /// Fills every empty cell so that the board is solved, keeping every filled cell;
    /// the completion left is the first one in row-major order.
    /// Returns false, with the board untouched, when the clues do not hold or no
    /// completion exists.
    fn run(board: &mut Board) -> (solved: bool)
        requires
            old(board).wf(),
        ensures
            final(board).wf(),
            final(board).clues() == old(board).clues(),
            solved == (old(board).clues_hold() && has_completion(old(board).cells())),
            solved ==> final(board).verified() && is_completion(
                old(board).cells(),
                final(board).cells(),
            ),
            !solved ==> final(board).cells() == old(board).cells(),
            solved ==> forall|t: Seq<u8>|
                #[trigger] is_completion(old(board).cells(), t) ==> !lex_less(
                    t,
                    final(board).cells(),
                ),
    ;
}

/// The backtracking solver.
pub struct BTSolver;

/// Enough solutions to tell a unique puzzle from one with several completions.
pub const UNIQUENESS_CAP: u8 = 2;

/// A completion of a board whose clues hold keeps the clues too.
proof fn lemma_completion_keeps_clues(before: &Board, after: &Board)
    requires
        before.wf(),
        before.clues_hold(),
        after.clues() == before.clues(),
        is_completion(before.cells(), after.cells()),
    ensures
        after.clues_hold(),
{
    assert forall|i: int| 0 <= i < after.clues().len() implies after.cells()[#[trigger] after.clues()[i].0 as int]
        == after.clues()[i].1 by {
        let p = before.clues()[i].0 as int;
        assert(before.cells()[p] == before.clues()[i].1);
    }
}

/// A full grid without a repeated digit is its own completion.
pub proof fn lemma_full_grid(cells: Seq<u8>)
    requires
        cells.len() == 81,
        consistent(cells),
        forall|q: int| 0 <= q < 81 ==> 1 <= #[trigger] cells[q] <= 9,
    ensures
        is_completion(cells, cells),
        forall|s: Seq<u8>| #[trigger] is_completion(cells, s) ==> s == cells,
{
    assert forall|s: Seq<u8>| #[trigger] is_completion(cells, s) implies s == cells by {
        assert(s =~= cells);
    }
}

/// Completions of a grid with digit `v` written at empty position `p` are the
/// completions of the grid that hold `v` there.
pub proof fn lemma_completion_update(cells: Seq<u8>, p: int, v: u8, s: Seq<u8>)
    requires
        cells.len() == 81,
        0 <= p < 81,
        cells[p] == 0,
        1 <= v <= 9,
    ensures
        is_completion(cells.update(p, v), s) <==> is_completion(cells, s) && s[p] == v,
{
    let n = cells.update(p, v);
    if is_completion(cells, s) && s[p] == v {
        assert forall|q: int| 0 <= q < 81 && n[q] != 0 implies #[trigger] s[q] == n[q] by {
            if q != p {
                assert(cells[q] != 0);
            }
        }
    }
    if is_completion(n, s) {
        assert(n[p] == v);
        assert forall|q: int| 0 <= q < 81 && cells[q] != 0 implies #[trigger] s[q] == cells[q] by {
            assert(n[q] == cells[q]);
        }
    }
}

/// Some completion of `cells` holds at `p` one of `vals`.
pub open spec fn completion_among(cells: Seq<u8>, p: int, vals: Seq<u8>) -> bool {
    exists|s: Seq<u8>| #[trigger] is_completion(cells, s) && vals.contains(s[p])
}

/// Two different completions of `cells` hold at `p` digits of `vals`.
pub open spec fn two_completions_among(cells: Seq<u8>, p: int, vals: Seq<u8>) -> bool {
    exists|s1: Seq<u8>, s2: Seq<u8>|
        #[trigger] is_completion(cells, s1) && #[trigger] is_completion(cells, s2) && s1 != s2
            && vals.contains(s1[p]) && vals.contains(s2[p])
}

/// Completions of `cells` whose digit at `p` is one of `vals`.
pub open spec fn completions_among(cells: Seq<u8>, p: int, vals: Seq<u8>) -> Set<Seq<u8>> {
    Set::new(|s: Seq<u8>| is_completion(cells, s) && vals.contains(s[p]))
}

/// Completions of `cells` whose digit at `p` lies in 1..=k.
spec fn completions_upto(cells: Seq<u8>, p: int, k: int) -> Set<Seq<u8>> {
    Set::new(|s: Seq<u8>| is_completion(cells, s) && 1 <= s[p] <= k)
}

/// A consistent grid has finitely many completions.
pub proof fn lemma_completions_finite(cells: Seq<u8>, pos: int)
    requires
        cells.len() == 81,
        consistent(cells),
        0 <= pos <= 81,
        forall|q: int| 0 <= q < pos ==> #[trigger] cells[q] != 0,
        forall|q: int| 0 <= q < 81 ==> #[trigger] cells[q] <= 9,
    ensures
        completions(cells).finite(),
    decreases 81 - pos, 10int,
{
    if pos == 81 {
        lemma_full_grid(cells);
        assert(completions(cells) =~= set![cells]);
    } else if cells[pos] != 0 {
        lemma_completions_finite(cells, pos + 1);
    } else {
        lemma_completions_upto_finite(cells, pos, 9);
        assert(completions(cells) =~= completions_upto(cells, pos, 9));
    }
}

proof fn lemma_completions_upto_finite(cells: Seq<u8>, pos: int, k: int)
    requires
        cells.len() == 81,
        consistent(cells),
        0 <= pos < 81,
        cells[pos] == 0,
        forall|q: int| 0 <= q < pos ==> #[trigger] cells[q] != 0,
        forall|q: int| 0 <= q < 81 ==> #[trigger] cells[q] <= 9,
        0 <= k <= 9,
    ensures
        completions_upto(cells, pos, k).finite(),
    decreases 81 - pos, k,
{
    if k == 0 {
        assert(completions_upto(cells, pos, 0) =~= Set::<Seq<u8>>::empty());
    } else {
        lemma_completions_upto_finite(cells, pos, k - 1);
        let v = k as u8;
        let r = pos / 9;
        let c = pos % 9;
        let n = cells.update(pos, v);
        let d = completions(n);
        assert forall|s: Seq<u8>| #[trigger] d.contains(s) <==> is_completion(cells, s) && s[pos]
            == v by {
            lemma_completion_update(cells, pos, v, s);
        }
        if is_legal(cells, r, c, k) {
            lemma_write_legal(cells, r, c, v);
            assert(n == cells.update(r * 9 + c, v));
            lemma_completions_finite(n, pos + 1);
        } else {
            assert forall|s: Seq<u8>| !#[trigger] d.contains(s) by {
                if d.contains(s) {
                    lemma_completion_legal(cells, s, r, c);
                }
            }
            assert(d =~= Set::<Seq<u8>>::empty());
        }
        assert(completions_upto(cells, pos, k) =~= completions_upto(cells, pos, k - 1).union(d));
    }
}

/// The branch of digit `vals[i]` at `pos` found `f`, all earlier digits having
/// failed: no completion comes before `f`.
proof fn lemma_least_step(
    cells: Seq<u8>,
    pos: int,
    r: int,
    c: int,
    vals: Seq<u8>,
    i: int,
    f: Seq<u8>,
    t: Seq<u8>,
)
    requires
        cells.len() == 81,
        0 <= pos < 81,
        pos == r * 9 + c,
        0 <= r < 9,
        0 <= c < 9,
        cells[pos] == 0,
        forall|q: int| 0 <= q < pos ==> #[trigger] cells[q] != 0,
        vals == legal_upto(cells, r, c, 9),
        forall|a: int, b: int| 0 <= a < b < vals.len() ==> #[trigger] vals[a] < #[trigger] vals[b],
        0 <= i < vals.len(),
        forall|j: int| 0 <= j < i ==> !has_completion(#[trigger] cells.update(pos, vals[j])),
        is_completion(cells.update(pos, vals[i]), f),
        forall|u: Seq<u8>| #[trigger] is_completion(cells.update(pos, vals[i]), u) ==> !lex_less(u, f),
        is_completion(cells, t),
    ensures
        !lex_less(t, f),
{
    let v = vals[i];
    lemma_legal_upto_contains(cells, r, c, 9, v);
    lemma_completion_update(cells, pos, v, f);
    lemma_completion_legal(cells, t, r, c);
    let w = t[pos];
    lemma_legal_upto_contains(cells, r, c, 9, w);
    let j = choose|j: int| 0 <= j < vals.len() && vals[j] == w;
    lemma_completion_update(cells, pos, w, t);
    if w < v {
        if j >= i {
            if j > i {
                assert(vals[i] < vals[j]);
            }
        }
        assert(has_completion(cells.update(pos, vals[j])));
    } else if w == v {
        assert(is_completion(cells.update(pos, vals[i]), t));
    } else {
        if lex_less(t, f) {
            let k = choose|k: int|
                0 <= k < 81 && #[trigger] t[k] < f[k] && forall|x: int| 0 <= x < k ==> #[trigger] t[x] == f[x];
            if k < pos {
                assert(cells[k] != 0);
                assert(t[k] == cells[k] && f[k] == cells[k]);
            } else if k > pos {
                assert(t[pos] == f[pos]);
            }
        }
    }
}

/// One branch of the exact count: the completions holding `vals[i]` at `p` are
/// added to those counted so far, up to `cap`.
proof fn lemma_count_exact_step(
    cells: Seq<u8>,
    p: int,
    vals: Seq<u8>,
    i: int,
    acc: int,
    sub: int,
    cap: int,
)
    requires
        cells.len() == 81,
        0 <= p < 81,
        cells[p] == 0,
        0 <= i < vals.len(),
        1 <= vals[i] <= 9,
        forall|a: int, b: int| 0 <= a < b < vals.len() ==> #[trigger] vals[a] < #[trigger] vals[b],
        completions(cells).finite(),
        0 <= acc < cap,
        acc == completions_among(cells, p, vals.take(i)).len(),
        completions(cells.update(p, vals[i])).finite(),
        sub == if completions(cells.update(p, vals[i])).len() >= cap - acc {
            cap - acc
        } else {
            completions(cells.update(p, vals[i])).len() as int
        },
    ensures
        completions_among(cells, p, vals.take(i + 1)).finite(),
        acc + sub == if completions_among(cells, p, vals.take(i + 1)).len() >= cap {
            cap
        } else {
            completions_among(cells, p, vals.take(i + 1)).len() as int
        },
{
    let v = vals[i];
    let t = vals.take(i);
    let t2 = vals.take(i + 1);
    let a = completions_among(cells, p, t);
    let a2 = completions_among(cells, p, t2);
    let d = completions(cells.update(p, v));
    assert(t2 == t.push(v));
    assert forall|x: u8| #[trigger] t2.contains(x) <==> t.contains(x) || x == v by {
        if t2.contains(x) {
            let k = choose|k: int| 0 <= k < t2.len() && t2[k] == x;
            if k < i {
                assert(t[k] == x);
            }
        }
        if t.contains(x) {
            let k = choose|k: int| 0 <= k < t.len() && t[k] == x;
            assert(t2[k] == x);
        }
        if x == v {
            assert(t2[i] == x);
        }
    }
    assert(!t.contains(v)) by {
        if t.contains(v) {
            let k = choose|k: int| 0 <= k < t.len() && t[k] == v;
            assert(vals[k] < vals[i]);
        }
    }
    assert forall|s: Seq<u8>| #[trigger] d.contains(s) <==> is_completion(cells, s) && s[p] == v by {
        lemma_completion_update(cells, p, v, s);
    }
    assert(a.subset_of(completions(cells)));
    vstd::set_lib::lemma_len_subset(a, completions(cells));
    assert(a2 =~= a + d);
    assert(a.disjoint(d));
    vstd::set_lib::lemma_set_disjoint_lens(a, d);
}

/// One branch of the count: the digit `vals[i]` at `p` added `sub` to `acc`.
proof fn lemma_count_step(cells: Seq<u8>, p: int, vals: Seq<u8>, i: int, acc: int, sub: int, cap: int)
    requires
        cells.len() == 81,
        0 <= p < 81,
        cells[p] == 0,
        0 <= i < vals.len(),
        1 <= vals[i] <= 9,
        forall|a: int, b: int| 0 <= a < b < vals.len() ==> #[trigger] vals[a] < #[trigger] vals[b],
        0 <= acc < cap,
        0 <= sub <= cap - acc,
        acc >= 1 <==> completion_among(cells, p, vals.take(i)),
        cap >= 2 ==> (acc >= 2 <==> two_completions_among(cells, p, vals.take(i))),
        sub >= 1 <==> has_completion(cells.update(p, vals[i])),
        cap - acc >= 2 ==> (sub >= 2 <==> has_two_completions(cells.update(p, vals[i]))),
    ensures
        acc + sub >= 1 <==> completion_among(cells, p, vals.take(i + 1)),
        cap >= 2 ==> (acc + sub >= 2 <==> two_completions_among(cells, p, vals.take(i + 1))),
{
    let v = vals[i];
    let t = vals.take(i);
    let t2 = vals.take(i + 1);
    let n = cells.update(p, v);
    assert(t2 == t.push(v));
    assert forall|x: u8| #[trigger] t2.contains(x) <==> t.contains(x) || x == v by {
        if t2.contains(x) {
            let k = choose|k: int| 0 <= k < t2.len() && t2[k] == x;
            if k < i {
                assert(t[k] == x);
            }
        }
        if t.contains(x) {
            let k = choose|k: int| 0 <= k < t.len() && t[k] == x;
            assert(t2[k] == x);
        }
        if x == v {
            assert(t2[i] == x);
        }
    }
    assert(!t.contains(v)) by {
        if t.contains(v) {
            let k = choose|k: int| 0 <= k < t.len() && t[k] == v;
            assert(vals[k] < vals[i]);
        }
    }
    assert forall|s: Seq<u8>| #[trigger] is_completion(n, s) <==> is_completion(cells, s) && s[p] == v by {
        lemma_completion_update(cells, p, v, s);
    }
    // at least one
    if acc + sub >= 1 {
        if acc >= 1 {
            let s = choose|s: Seq<u8>| #[trigger] is_completion(cells, s) && t.contains(s[p]);
            assert(t2.contains(s[p]));
        } else {
            let s = choose|s: Seq<u8>| is_completion(n, s);
            assert(is_completion(cells, s) && t2.contains(s[p]));
        }
    }
    if completion_among(cells, p, t2) {
        let s = choose|s: Seq<u8>| #[trigger] is_completion(cells, s) && t2.contains(s[p]);
        if !t.contains(s[p]) {
            assert(is_completion(n, s));
        }
    }
    // at least two
    if cap >= 2 {
        if acc + sub >= 2 {
            if acc >= 2 {
                let (s1, s2) = choose|s1: Seq<u8>, s2: Seq<u8>|
                    #[trigger] is_completion(cells, s1) && #[trigger] is_completion(cells, s2)
                        && s1 != s2 && t.contains(s1[p]) && t.contains(s2[p]);
                assert(t2.contains(s1[p]) && t2.contains(s2[p]));
            } else if acc == 1 {
                let s1 = choose|s: Seq<u8>| #[trigger] is_completion(cells, s) && t.contains(s[p]);
                let s2 = choose|s: Seq<u8>| is_completion(n, s);
                assert(s1[p] != s2[p]);
                assert(t2.contains(s1[p]) && t2.contains(s2[p]) && is_completion(cells, s2));
            } else {
                let (s1, s2) = choose|s1: Seq<u8>, s2: Seq<u8>|
                    is_completion(n, s1) && is_completion(n, s2) && s1 != s2;
                assert(is_completion(cells, s1) && is_completion(cells, s2));
                assert(t2.contains(s1[p]) && t2.contains(s2[p]));
            }
        }
        if two_completions_among(cells, p, t2) {
            let (s1, s2) = choose|s1: Seq<u8>, s2: Seq<u8>|
                #[trigger] is_completion(cells, s1) && #[trigger] is_completion(cells, s2) && s1
                    != s2 && t2.contains(s1[p]) && t2.contains(s2[p]);
            if t.contains(s1[p]) && t.contains(s2[p]) {
                assert(two_completions_among(cells, p, t));
            } else if t.contains(s1[p]) {
                assert(completion_among(cells, p, t));
                assert(is_completion(n, s2));
            } else if t.contains(s2[p]) {
                assert(completion_among(cells, p, t));
                assert(is_completion(n, s1));
            } else {
                assert(is_completion(n, s1) && is_completion(n, s2));
                assert(has_two_completions(n));
            }
        }
    }
}

impl Solver for BTSolver {
    fn run(board: &mut Board) -> (solved: bool) {
        if !board.check_invariants() {
            return false;
        }
        if board.has_conflict() {
            proof {
                board.lemma_len();
                lemma_conflict_no_completion(board.cells());
            }
            return false;
        }
        let ghost before = *board;
        let r = Self::internal(board, 0);
        proof {
            if r {
                lemma_completion_keeps_clues(&before, board);
            }
        }
        r
    }
}

impl BTSolver {
    /// Counts the completions of the board, stopping once `cap` are found: the result
    /// is the smaller of `cap` and the number of completions. The board is left as it
    /// was. Only the cells count: the clues are not consulted.
    pub fn count_solutions(board: &mut Board, cap: u8) -> (n: u8)
        requires
            old(board).wf(),
        ensures
            final(board).wf(),
            final(board).clues() == old(board).clues(),
            final(board).cells() == old(board).cells(),
            n <= cap,
            completions(old(board).cells()).finite(),
            n == if completions(old(board).cells()).len() >= cap {
                cap as int
            } else {
                completions(old(board).cells()).len() as int
            },
            cap >= 1 ==> (n >= 1 <==> has_completion(old(board).cells())),
            cap >= 2 ==> (n >= 2 <==> has_two_completions(old(board).cells())),
    {
        proof {
            board.lemma_len();
        }
        if board.has_conflict() {
            proof {
                lemma_conflict_no_completion(board.cells());
                assert(completions(board.cells()) =~= Set::<Seq<u8>>::empty());
            }
            return 0;
        }
        proof {
            lemma_completions_finite(board.cells(), 0);
        }
        if cap == 0 {
            return 0;
        }
        Self::num_solution_internal(board, 0, cap)
    }

    /// Tells apart boards with no completion (0), exactly one (1) and several (2).
    pub fn num_solution(board: &mut Board) -> (n: u8)
        requires
            old(board).wf(),
        ensures
            final(board).wf(),
            final(board).clues() == old(board).clues(),
            final(board).cells() == old(board).cells(),
            n <= 2,
            completions(old(board).cells()).finite(),
            n == if completions(old(board).cells()).len() >= 2 {
                2
            } else {
                completions(old(board).cells()).len() as int
            },
            n == 0 <==> !has_completion(old(board).cells()),
            n == 1 <==> has_completion(old(board).cells()) && !has_two_completions(
                old(board).cells(),
            ),
            n == 2 <==> has_two_completions(old(board).cells()),
    {
        Self::count_solutions(board, UNIQUENESS_CAP)
    }

    /// Counts completions from cursor `pos` on, up to `cap`, restoring the board.
    fn num_solution_internal(board: &mut Board, pos: usize, cap: u8) -> (n: u8)
        requires
            old(board).wf(),
            consistent(old(board).cells()),
            pos <= 81,
            cap >= 1,
            forall|q: int| 0 <= q < pos ==> #[trigger] old(board).cells()[q] != 0,
        ensures
            final(board).wf(),
            final(board).clues() == old(board).clues(),
            final(board).cells() == old(board).cells(),
            n <= cap,
            n >= 1 <==> has_completion(old(board).cells()),
            cap >= 2 ==> (n >= 2 <==> has_two_completions(old(board).cells())),
            completions(old(board).cells()).finite(),
            n == if completions(old(board).cells()).len() >= cap {
                cap as int
            } else {
                completions(old(board).cells()).len() as int
            },
        decreases 81 - pos,
    {
        let ghost cells0 = board.cells();
        proof {
            board.lemma_len();
        }
        if pos == BOARD_SIZE {
            proof {
                lemma_full_grid(cells0);
                assert(completions(cells0) =~= set![cells0]);
            }
            return 1;
        }
        if board.at(pos) != 0 {
            return Self::num_solution_internal(board, pos + 1, cap);
        }
        let r = (pos / 9) as u8;
        let c = (pos % 9) as u8;
        assert(pos == r * 9 + c);
        proof {
            lemma_legal_upto_ascending(cells0, r as int, c as int, 9);
        }
        let cands = legal_values(board, r, c);
        let mut count: u8 = 0;
        let mut i: usize = 0;
        assert(cands@.take(0) =~= seq![]);
        proof {
            lemma_completions_finite(cells0, pos as int);
            assert(completions_among(cells0, pos as int, cands@.take(0)) =~= Set::<Seq<u8>>::empty());
        }
        while i < cands.len() && count < cap
            invariant
                board.wf(),
                board.clues() == old(board).clues(),
                board.cells() == cells0,
                cells0 == old(board).cells(),
                consistent(cells0),
                pos < 81,
                pos == r * 9 + c,
                r < 9,
                c < 9,
                cap >= 1,
                cells0[pos as int] == 0,
                forall|q: int| 0 <= q < pos ==> #[trigger] cells0[q] != 0,
                cands@ == legal_upto(cells0, r as int, c as int, 9),
                forall|a: int, b: int| 0 <= a < b < cands@.len() ==> #[trigger] cands@[a] < #[trigger] cands@[b],
                0 <= i <= cands.len(),
                count <= cap,
                completions(cells0).finite(),
                completions_among(cells0, pos as int, cands@.take(i as int)).finite(),
                count == if completions_among(cells0, pos as int, cands@.take(i as int)).len() >= cap {
                    cap as int
                } else {
                    completions_among(cells0, pos as int, cands@.take(i as int)).len() as int
                },
                count >= 1 <==> completion_among(cells0, pos as int, cands@.take(i as int)),
                cap >= 2 ==> (count >= 2 <==> two_completions_among(cells0, pos as int, cands@.take(i as int))),
            decreases cands.len() - i,
        {
            let v = cands[i];
            proof {
                lemma_legal_upto_contains(cells0, r as int, c as int, 9, v);
                assert(cands@.contains(v));
                lemma_write_legal(cells0, r as int, c as int, v);
            }
            board.put(pos, v);
            let sub = Self::num_solution_internal(board, pos + 1, cap - count);
            proof {
                lemma_count_step(cells0, pos as int, cands@, i as int, count as int, sub as int, cap as int);
                lemma_count_exact_step(cells0, pos as int, cands@, i as int, count as int, sub as int, cap as int);
            }
            count = count + sub;
            board.put(pos, 0);
            assert(board.cells() =~= cells0);
            i += 1;
        }
        proof {
            let among = completions_among(cells0, pos as int, cands@.take(i as int));
            assert(among.subset_of(completions(cells0)));
            vstd::set_lib::lemma_len_subset(among, completions(cells0));
            if i == cands.len() {
                assert(cands@.take(i as int) =~= cands@);
                assert forall|s: Seq<u8>| #[trigger] completions(cells0).contains(s) implies among.contains(s) by {
                    lemma_completion_legal(cells0, s, r as int, c as int);
                    lemma_legal_upto_contains(cells0, r as int, c as int, 9, s[pos as int]);
                }
                assert(among =~= completions(cells0));
                if has_completion(cells0) {
                    let s = choose|s: Seq<u8>| is_completion(cells0, s);
                    lemma_completion_legal(cells0, s, r as int, c as int);
                    lemma_legal_upto_contains(cells0, r as int, c as int, 9, s[pos as int]);
                    assert(completion_among(cells0, pos as int, cands@));
                }
                if has_two_completions(cells0) {
                    let (s1, s2) = choose|s1: Seq<u8>, s2: Seq<u8>|
                        is_completion(cells0, s1) && is_completion(cells0, s2) && s1 != s2;
                    lemma_completion_legal(cells0, s1, r as int, c as int);
                    lemma_legal_upto_contains(cells0, r as int, c as int, 9, s1[pos as int]);
                    lemma_completion_legal(cells0, s2, r as int, c as int);
                    lemma_legal_upto_contains(cells0, r as int, c as int, 9, s2[pos as int]);
                    assert(two_completions_among(cells0, pos as int, cands@));
                }
            } else {
                if count >= 1 {
                    let s = choose|s: Seq<u8>| #[trigger] is_completion(cells0, s) && cands@.take(i as int).contains(s[pos as int]);
                    assert(has_completion(cells0));
                }
                if cap >= 2 && count >= 2 {
                    let (s1, s2) = choose|s1: Seq<u8>, s2: Seq<u8>|
                        #[trigger] is_completion(cells0, s1) && #[trigger] is_completion(cells0, s2) && s1
                            != s2 && cands@.take(i as int).contains(s1[pos as int]) && cands@.take(i as int).contains(s2[pos as int]);
                    assert(has_two_completions(cells0));
                }
            }
        }
        count
    }

    /// Searches from cursor `pos` on, every earlier cell being filled. A failed search
    /// leaves the cells as they were; a successful one fills every cell and keeps
    /// every filled one. On a consistent grid it succeeds exactly when a completion
    /// exists, and then leaves one.
    fn internal(board: &mut Board, pos: usize) -> (found: bool)
        requires
            old(board).wf(),
            pos <= 81,
            forall|q: int| 0 <= q < pos ==> #[trigger] old(board).cells()[q] != 0,
        ensures
            final(board).wf(),
            final(board).clues() == old(board).clues(),
            !found ==> final(board).cells() == old(board).cells(),
            found ==> forall|q: int| 0 <= q < 81 ==> #[trigger] final(board).cells()[q] != 0,
            found ==> forall|q: int|
                0 <= q < 81 && old(board).cells()[q] != 0 ==> #[trigger] final(board).cells()[q]
                    == old(board).cells()[q],
            consistent(old(board).cells()) ==> found == has_completion(old(board).cells()),
            consistent(old(board).cells()) && found ==> is_completion(
                old(board).cells(),
                final(board).cells(),
            ),
            consistent(old(board).cells()) && found ==> forall|t: Seq<u8>|
                #[trigger] is_completion(old(board).cells(), t) ==> !lex_less(
                    t,
                    final(board).cells(),
                ),
        decreases 81 - pos,
    {
        let ghost cells0 = board.cells();
        proof {
            board.lemma_len();
        }
        if pos == BOARD_SIZE {
            proof {
                if consistent(cells0) {
                    lemma_full_grid(cells0);
                }
            }
            return true;
        }

        if board.at(pos) != 0 {
            return Self::internal(board, pos + 1);
        }
        let r = (pos / 9) as u8;
        let c = (pos % 9) as u8;
        assert(pos == r * 9 + c);
        let cands = legal_values(board, r, c);
        let mut i: usize = 0;
        while i < cands.len()
            invariant
                board.wf(),
                board.clues() == old(board).clues(),
                board.cells() == cells0,
                cells0 == old(board).cells(),
                pos < 81,
                pos == r * 9 + c,
                r < 9,
                c < 9,
                cells0[pos as int] == 0,
                forall|q: int| 0 <= q < pos ==> #[trigger] cells0[q] != 0,
                cands@ == legal_upto(cells0, r as int, c as int, 9),
                0 <= i <= cands.len(),
                consistent(cells0) ==> forall|j: int|
                    0 <= j < i ==> !has_completion(#[trigger] cells0.update(pos as int, cands@[j])),
            decreases cands.len() - i,
        {
            let v = cands[i];
            proof {
                lemma_legal_upto_contains(cells0, r as int, c as int, 9, v);
                assert(cands@.contains(v));
                if consistent(cells0) {
                    lemma_write_legal(cells0, r as int, c as int, v);
                }
            }
            board.put(pos, v);
            if Self::internal(board, pos + 1) {
                proof {
                    let s = board.cells();
                    assert forall|q: int|
                        0 <= q < 81 && cells0[q] != 0 implies #[trigger] s[q] == cells0[q] by {
                        assert(cells0.update(pos as int, v)[q] == cells0[q]);
                    }
                    if consistent(cells0) {
                        lemma_completion_update(cells0, pos as int, v, s);
                        lemma_legal_upto_ascending(cells0, r as int, c as int, 9);
                        assert forall|t: Seq<u8>| #[trigger] is_completion(cells0, t) implies !lex_less(t, s) by {
                            lemma_least_step(cells0, pos as int, r as int, c as int, cands@, i as int, s, t);
                        }
                    }
                }
                return true;
            }
            board.put(pos, 0);
            assert(board.cells() =~= cells0);
            i += 1;
        }
        proof {
            if consistent(cells0) && has_completion(cells0) {
                let s = choose|s: Seq<u8>| is_completion(cells0, s);
                lemma_completion_legal(cells0, s, r as int, c as int);
                let v = s[pos as int];
                lemma_legal_upto_contains(cells0, r as int, c as int, 9, v);
                let j = choose|j: int| 0 <= j < cands@.len() && cands@[j] == v;
                assert(has_completion(cells0.update(pos as int, cands@[j])));
            }
        }
        false
    }
}

} // verus!

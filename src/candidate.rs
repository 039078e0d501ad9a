//! The candidate rule: which digits a cell may still take.

use vstd::prelude::*;
use crate::board::{box_index, consistent, has_completion, is_completion, unit_cell, unit_has_dup, unit_pos, Board};

verus! {

/// Cell `k` of row `r`, of column `c` or of the box of (r, c) holds `v`.
pub open spec fn in_units(cells: Seq<u8>, r: int, c: int, k: int, v: int) -> bool {
    ||| cells[unit_cell(r, k)] == v
    ||| cells[unit_cell(9 + c, k)] == v
    ||| cells[unit_cell(18 + box_index(r, c), k)] == v
}

/// Digit `v` appears nowhere in row `r`, column `c` or the box of (r, c).
pub open spec fn is_legal(cells: Seq<u8>, r: int, c: int, v: int) -> bool {
    forall|k: int| 0 <= k < 9 ==> !#[trigger] in_units(cells, r, c, k, v)
}

/// The legal digits among 1..=n, ascending.
pub open spec fn legal_upto(cells: Seq<u8>, r: int, c: int, n: int) -> Seq<u8>
    decreases n,
{
    if n <= 0 {
        seq![]
    } else {
        legal_upto(cells, r, c, n - 1) + if is_legal(cells, r, c, n) {
            seq![n as u8]
        } else {
            seq![]
        }
    }
}

pub proof fn lemma_unit_cell_range(u: int, k: int)
    requires
        0 <= u < 27,
        0 <= k < 9,
    ensures
        0 <= unit_cell(u, k) < 81,
{
}

/// Distinct indices of one unit name distinct cells.
pub proof fn lemma_unit_cell_injective(u: int, i: int, j: int)
    requires
        0 <= u < 27,
        0 <= i < 9,
        0 <= j < 9,
        i != j,
    ensures
        unit_cell(u, i) != unit_cell(u, j),
{
}

/// Cell (r, c) lies in row r, column c and box `box_index(r, c)`.
pub proof fn lemma_cell_in_units(r: int, c: int)
    requires
        0 <= r < 9,
        0 <= c < 9,
    ensures
        unit_cell(r, c) == r * 9 + c,
        unit_cell(9 + c, r) == r * 9 + c,
        unit_cell(18 + box_index(r, c), r % 3 * 3 + c % 3) == r * 9 + c,
        0 <= box_index(r, c) < 9,
{
}

/// The only units that hold cell (r, c) are its row, its column and its box.
pub proof fn lemma_units_of_cell(u: int, k: int, r: int, c: int)
    requires
        0 <= u < 27,
        0 <= k < 9,
        0 <= r < 9,
        0 <= c < 9,
        unit_cell(u, k) == r * 9 + c,
    ensures
        u == r || u == 9 + c || u == 18 + box_index(r, c),
{
}

/// A legal digit written into a consistent grid keeps it consistent.
pub proof fn lemma_write_legal(cells: Seq<u8>, r: int, c: int, v: u8)
    requires
        cells.len() == 81,
        consistent(cells),
        0 <= r < 9,
        0 <= c < 9,
        is_legal(cells, r, c, v as int),
    ensures
        consistent(cells.update(r * 9 + c, v)),
{
    let p = r * 9 + c;
    let n = cells.update(p, v);
    assert forall|u: int| 0 <= u < 27 implies !#[trigger] unit_has_dup(n, u) by {
        if unit_has_dup(n, u) {
            let (i, j) = choose|i: int, j: int|
                0 <= i < j < 9 && n[unit_cell(u, i)] != 0 && #[trigger] n[unit_cell(u, i)]
                    == #[trigger] n[unit_cell(u, j)];
            let a = unit_cell(u, i);
            let b = unit_cell(u, j);
            lemma_unit_cell_range(u, i);
            lemma_unit_cell_range(u, j);
            lemma_unit_cell_injective(u, i, j);
            if a == p {
                lemma_units_of_cell(u, i, r, c);
                assert(!in_units(cells, r, c, j, v as int));
            } else if b == p {
                lemma_units_of_cell(u, j, r, c);
                assert(!in_units(cells, r, c, i, v as int));
            } else {
                assert(unit_has_dup(cells, u));
            }
        }
    }
}

/// Every completion of a grid puts a legal digit into each empty cell, and also
/// completes the grid with that digit written in.
pub proof fn lemma_completion_legal(cells: Seq<u8>, s: Seq<u8>, r: int, c: int)
    requires
        cells.len() == 81,
        is_completion(cells, s),
        0 <= r < 9,
        0 <= c < 9,
        cells[r * 9 + c] == 0,
    ensures
        is_legal(cells, r, c, s[r * 9 + c] as int),
        is_completion(cells.update(r * 9 + c, s[r * 9 + c]), s),
        1 <= s[r * 9 + c] <= 9,
{
    let p = r * 9 + c;
    let v = s[p];
    lemma_cell_in_units(r, c);
    assert forall|k: int| 0 <= k < 9 implies !#[trigger] in_units(cells, r, c, k, v as int) by {
        lemma_unit_differs(cells, s, r, c, r, c, k);
        lemma_unit_differs(cells, s, r, c, 9 + c, r, k);
        lemma_unit_differs(cells, s, r, c, 18 + box_index(r, c), r % 3 * 3 + c % 3, k);
    }
    let n = cells.update(p, v);
    assert forall|q: int| 0 <= q < 81 && n[q] != 0 implies #[trigger] s[q] == n[q] by {
        if q != p {
            assert(cells[q] != 0);
        }
    }
}

proof fn lemma_unit_differs(cells: Seq<u8>, s: Seq<u8>, r: int, c: int, u: int, kp: int, k: int)
    requires
        cells.len() == 81,
        is_completion(cells, s),
        0 <= r < 9,
        0 <= c < 9,
        cells[r * 9 + c] == 0,
        0 <= u < 27,
        0 <= kp < 9,
        0 <= k < 9,
        unit_cell(u, kp) == r * 9 + c,
    ensures
        cells[unit_cell(u, k)] != s[r * 9 + c],
{
    let p = r * 9 + c;
    lemma_unit_cell_range(u, k);
    assert(1 <= s[p] <= 9);
    if k != kp {
        let q = unit_cell(u, k);
        lemma_unit_cell_injective(u, k, kp);
        if cells[q] != 0 {
            assert(s[q] == cells[q]);
            assert(!unit_has_dup(s, u));
            if k < kp {
                assert(s[unit_cell(u, k)] != s[unit_cell(u, kp)]);
            } else {
                assert(s[unit_cell(u, kp)] != s[unit_cell(u, k)]);
            }
        }
    }
}

/// A grid with a repeated digit in some unit has no completion.
pub proof fn lemma_conflict_no_completion(cells: Seq<u8>)
    requires
        cells.len() == 81,
        !consistent(cells),
    ensures
        !has_completion(cells),
{
    let u = choose|u: int| 0 <= u < 27 && #[trigger] unit_has_dup(cells, u);
    let (i, j) = choose|i: int, j: int|
        0 <= i < j < 9 && cells[unit_cell(u, i)] != 0 && #[trigger] cells[unit_cell(u, i)]
            == #[trigger] cells[unit_cell(u, j)];
    lemma_unit_cell_range(u, i);
    lemma_unit_cell_range(u, j);
    if has_completion(cells) {
        let s = choose|s: Seq<u8>| is_completion(cells, s);
        assert(s[unit_cell(u, i)] == cells[unit_cell(u, i)]);
        assert(s[unit_cell(u, j)] == cells[unit_cell(u, j)]);
        assert(unit_has_dup(s, u));
    }
}

/// A digit is in the candidate list exactly when it is a legal digit of 1..=n.
pub proof fn lemma_legal_upto_contains(cells: Seq<u8>, r: int, c: int, n: int, v: u8)
    requires
        0 <= n <= 9,
    ensures
        legal_upto(cells, r, c, n).contains(v) <==> 1 <= v <= n && is_legal(cells, r, c, v as int),
        forall|i: int|
            0 <= i < legal_upto(cells, r, c, n).len() ==> 1 <= #[trigger] legal_upto(
                cells,
                r,
                c,
                n,
            )[i] <= n && is_legal(cells, r, c, legal_upto(cells, r, c, n)[i] as int),
    decreases n,
{
    if n > 0 {
        lemma_legal_upto_contains(cells, r, c, n - 1, v);
        let prev = legal_upto(cells, r, c, n - 1);
        let cur = legal_upto(cells, r, c, n);
        if is_legal(cells, r, c, n) {
            assert(cur == prev.push(n as u8));
            if prev.contains(v) {
                let i = choose|i: int| 0 <= i < prev.len() && prev[i] == v;
                assert(cur[i] == v);
            }
            if v == n {
                assert(cur[prev.len() as int] == v);
            }
            if cur.contains(v) && !prev.contains(v) {
                let i = choose|i: int| 0 <= i < cur.len() && cur[i] == v;
                assert(i == prev.len());
            }
        } else {
            assert(cur == prev);
        }
    }
}

/// The candidate list is strictly ascending.
pub proof fn lemma_legal_upto_ascending(cells: Seq<u8>, r: int, c: int, n: int)
    requires
        0 <= n <= 9,
    ensures
        forall|i: int, j: int|
            0 <= i < j < legal_upto(cells, r, c, n).len() ==> #[trigger] legal_upto(
                cells,
                r,
                c,
                n,
            )[i] < #[trigger] legal_upto(cells, r, c, n)[j],
    decreases n,
{
    if n > 0 {
        lemma_legal_upto_ascending(cells, r, c, n - 1);
        lemma_legal_upto_contains(cells, r, c, n - 1, 0);
        let prev = legal_upto(cells, r, c, n - 1);
        if is_legal(cells, r, c, n) {
            assert(legal_upto(cells, r, c, n) == prev.push(n as u8));
        } else {
            assert(legal_upto(cells, r, c, n) == prev);
        }
    }
}

/// The digits 1..=9 that cell (r, c) may take, ascending.
pub fn legal_values(board: &Board, r: u8, c: u8) -> (vals: Vec<u8>)
    requires
        board.wf(),
        r < 9,
        c < 9,
    ensures
        vals@ == legal_upto(board.cells(), r as int, c as int, 9),
{
    let ghost cells = board.cells();
    let b = (r / 3 * 3 + c / 3) as usize;
    let mut seen = [false; 10];
    let mut k: usize = 0;
    while k < 9
        invariant
            board.wf(),
            cells == board.cells(),
            r < 9,
            c < 9,
            b == box_index(r as int, c as int),
            0 <= k <= 9,
            forall|v: int|
                0 <= v < 10 ==> (seen@[v] <==> exists|k2: int|
                    0 <= k2 < k && #[trigger] in_units(cells, r as int, c as int, k2, v)),
        decreases 9 - k,
    {
        proof {
            lemma_unit_cell_range(r as int, k as int);
            lemma_unit_cell_range(9 + c, k as int);
            lemma_unit_cell_range(18 + b, k as int);
        }
        let x = board.at(unit_pos(r as usize, k));
        let y = board.at(unit_pos(9 + c as usize, k));
        let z = board.at(unit_pos(18 + b, k));
        let ghost before = seen@;
        seen[x as usize] = true;
        seen[y as usize] = true;
        seen[z as usize] = true;
        proof {
            assert forall|v: int| 0 <= v < 10 implies (seen@[v] <==> exists|k2: int|
                0 <= k2 < k + 1 && #[trigger] in_units(cells, r as int, c as int, k2, v)) by {
                assert(in_units(cells, r as int, c as int, k as int, v) <==> (v == x || v == y
                    || v == z));
                assert(seen@[v] <==> (before[v] || v == x || v == y || v == z));
            }
        }
        k += 1;
    }
    let mut vals: Vec<u8> = Vec::new();
    let mut v: u8 = 1;
    while v <= 9
        invariant
            board.wf(),
            cells == board.cells(),
            r < 9,
            c < 9,
            b == box_index(r as int, c as int),
            1 <= v <= 10,
            forall|w: int|
                0 <= w < 10 ==> (seen@[w] <==> exists|k2: int|
                    0 <= k2 < 9 && #[trigger] in_units(cells, r as int, c as int, k2, w)),
            vals@ == legal_upto(cells, r as int, c as int, v - 1),
        decreases 10 - v,
    {
        if !seen[v as usize] {
            vals.push(v);
        }
        assert(seen@[v as int] <==> !is_legal(cells, r as int, c as int, v as int));
        v += 1;
    }
    vals
}

} // verus!

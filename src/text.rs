//! The plain-text puzzle format: 81 whitespace-separated numbers in `[0, 9]`,
//! 0 for an empty cell. Boards are written back as nine lines of nine digits.

use vstd::prelude::*;
use crate::board::{clues_upto, Board, BoardError, BOARD_SIZE};

verus! {

/// ASCII whitespace: space, tab, line feed, vertical tab, form feed, carriage return.
pub open spec fn is_space(b: u8) -> bool {
    b == 32 || (9 <= b <= 13)
}

/// The characters that `char::is_whitespace` accepts: White_Space in Unicode.
pub open spec fn is_whitespace_char(c: char) -> bool {
    let u = c as u32;
    (9 <= u <= 13) || u == 32 || u == 0x85 || u == 0xA0 || u == 0x1680 || (0x2000 <= u
        <= 0x200A) || u == 0x2028 || u == 0x2029 || u == 0x202F || u == 0x205F || u == 0x3000
}

/// The byte that stands for a character when a text is read: a space for
/// whitespace, the character itself when it is ASCII, else a byte that is neither
/// space nor digit.
pub open spec fn char_byte(c: char) -> u8 {
    if is_whitespace_char(c) {
        32
    } else if (c as u32) < 128 {
        (c as u32) as u8
    } else {
        128
    }
}

/// A text with each character replaced by its byte.
pub open spec fn char_bytes(s: Seq<char>) -> Seq<u8> {
    s.map_values(|c: char| char_byte(c))
}

/// The maximal runs of non-space bytes of `s`, in order.
pub open spec fn tokens(s: Seq<u8>) -> Seq<Seq<u8>>
    decreases s.len(),
{
    if s.len() == 0 {
        seq![]
    } else {
        let t = tokens(s.drop_last());
        let b = s.last();
        if is_space(b) {
            t
        } else if s.len() >= 2 && !is_space(s[s.len() - 2]) {
            t.drop_last().push(t.last().push(b))
        } else {
            t.push(seq![b])
        }
    }
}

pub open spec fn is_digit(b: u8) -> bool {
    48 <= b <= 57
}

/// The decimal value of a run of digits.
pub open spec fn digits_value(t: Seq<u8>) -> int
    decreases t.len(),
{
    if t.len() == 0 {
        0
    } else {
        digits_value(t.drop_last()) * 10 + (t.last() - 48)
    }
}

/// The digits of a number token: a leading `+` is allowed.
pub open spec fn number_body(t: Seq<u8>) -> Seq<u8> {
    if t.len() > 0 && t[0] == 43 {
        t.drop_first()
    } else {
        t
    }
}

pub open spec fn is_number(t: Seq<u8>) -> bool {
    number_body(t).len() > 0 && forall|i: int|
        0 <= i < number_body(t).len() ==> is_digit(#[trigger] number_body(t)[i])
}

/// Why a token is refused, if it is.
pub open spec fn token_error(t: Seq<u8>) -> Option<BoardError> {
    if !is_number(t) {
        Some(BoardError::NotANumber)
    } else if digits_value(number_body(t)) > 9 {
        Some(BoardError::NumberOutOfRange)
    } else {
        None
    }
}

/// The first refusal among the first `n` tokens.
pub open spec fn first_error(ts: Seq<Seq<u8>>, n: int) -> Option<BoardError>
    decreases n,
{
    if n <= 0 {
        None
    } else {
        match first_error(ts, n - 1) {
            Some(e) => Some(e),
            None => token_error(ts[n - 1]),
        }
    }
}

/// The cells that a text describes, or why it is refused.
pub open spec fn parse_cells(s: Seq<u8>) -> Result<Seq<u8>, BoardError> {
    let ts = tokens(s);
    let n = if ts.len() < 81 {
        ts.len() as int
    } else {
        81
    };
    match first_error(ts, n) {
        Some(e) => Err(e),
        None => if ts.len() > 81 {
            Err(BoardError::TooManyNumbers)
        } else if ts.len() < 81 {
            Err(BoardError::TooFewNumbers)
        } else {
            Ok(token_digits(ts))
        },
    }
}

/// The digits the first 81 tokens stand for (0 past the last token).
pub open spec fn token_digits(ts: Seq<Seq<u8>>) -> Seq<u8> {
    Seq::new(
        81,
        |i: int|
            if i < ts.len() {
                digits_value(number_body(ts[i])) as u8
            } else {
                0u8
            },
    )
}

/// The text of the first `n` cells: each digit followed by a space, each row by a newline.
pub open spec fn render_upto(cells: Seq<u8>, n: int) -> Seq<u8>
    decreases n,
{
    if n <= 0 {
        seq![]
    } else {
        render_upto(cells, n - 1) + seq![(cells[n - 1] + 48) as u8, 32u8] + if n % 9 == 0 {
            seq![10u8]
        } else {
            seq![]
        }
    }
}

/// The decimal digit `v` as a one-byte token.
pub open spec fn digit_token(v: u8) -> Seq<u8> {
    seq![(v + 48) as u8]
}

proof fn lemma_tokens_render(cells: Seq<u8>, n: int)
    requires
        cells.len() == 81,
        forall|p: int| 0 <= p < 81 ==> #[trigger] cells[p] <= 9,
        0 <= n <= 81,
    ensures
        tokens(render_upto(cells, n)) == Seq::new(n as nat, |i: int| digit_token(cells[i])),
        render_upto(cells, n).len() == 0 || is_space(render_upto(cells, n).last()),
    decreases n,
{
    if n > 0 {
        lemma_tokens_render(cells, n - 1);
        let x = render_upto(cells, n - 1);
        let d = (cells[n - 1] + 48) as u8;
        let y = x.push(d);
        let z = y.push(32u8);
        assert(y.drop_last() =~= x);
        assert(z.drop_last() =~= y);
        assert(tokens(y) == tokens(x).push(seq![d]));
        assert(tokens(z) == tokens(y));
        assert(tokens(z) =~= Seq::new(n as nat, |i: int| digit_token(cells[i])));
        if n % 9 == 0 {
            let w = z.push(10u8);
            assert(w.drop_last() =~= z);
            assert(render_upto(cells, n) =~= w);
        } else {
            assert(render_upto(cells, n) =~= z);
        }
    }
}

proof fn lemma_no_error(ts: Seq<Seq<u8>>, k: int)
    requires
        0 <= k <= ts.len(),
        forall|i: int| 0 <= i < k ==> token_error(#[trigger] ts[i]) is None,
    ensures
        first_error(ts, k) is None,
    decreases k,
{
    if k > 0 {
        lemma_no_error(ts, k - 1);
    }
}

proof fn lemma_digit_token(v: u8)
    requires
        v <= 9,
    ensures
        token_error(digit_token(v)) is None,
        digits_value(number_body(digit_token(v))) == v,
{
    let t = digit_token(v);
    assert(t[0] != 43);
    assert(number_body(t) == t);
    assert(t.drop_last() =~= Seq::<u8>::empty());
    assert(digits_value(Seq::<u8>::empty()) == 0);
    assert(digits_value(t) == digits_value(t.drop_last()) * 10 + (t.last() - 48));
    assert(is_digit(t[0]));
    assert(is_number(t));
}

/// Writing a board as text and reading that text back gives the same cells, and
/// so the same clues for a board whose clues are its non-zero cells.
pub proof fn lemma_text_round_trip(b: &Board)
    requires
        b.wf(),
    ensures
        parse_cells(render_upto(b.cells(), 81)) == Ok::<Seq<u8>, BoardError>(b.cells()),
        b.clues() == clues_upto(b.cells(), 81) ==> clues_upto(
            parse_cells(render_upto(b.cells(), 81))->Ok_0,
            81,
        ) == b.clues(),
{
    let cells = b.cells();
    lemma_tokens_render(cells, 81);
    let ts = tokens(render_upto(cells, 81));
    assert forall|i: int| 0 <= i < 81 implies token_error(#[trigger] ts[i]) is None
        && digits_value(number_body(ts[i])) == cells[i] by {
        lemma_digit_token(cells[i]);
    }
    lemma_no_error(ts, 81);
    assert(token_digits(ts) =~= cells);
}

/// Once a refusal is found among the first tokens, it stays the first.
proof fn lemma_first_error_stable(ts: Seq<Seq<u8>>, k: int, m: int)
    requires
        0 <= k <= m,
        first_error(ts, k) is Some,
    ensures
        first_error(ts, m) == first_error(ts, k),
    decreases m - k,
{
    if m > k {
        lemma_first_error_stable(ts, k, m - 1);
    }
}

/// Splits `text` into its runs of non-space bytes.
fn split_tokens(text: &[u8]) -> (ts: Vec<Vec<u8>>)
    ensures
        ts@.len() == tokens(text@).len(),
        forall|j: int| 0 <= j < ts@.len() ==> #[trigger] ts@[j]@ == tokens(text@)[j],
{
    let mut ts: Vec<Vec<u8>> = Vec::new();
    let mut cur: Vec<u8> = Vec::new();
    let ghost mut gt: Seq<Seq<u8>> = seq![];
    let mut i: usize = 0;
    assert(text@.take(0) =~= Seq::<u8>::empty());
    while i < text.len()
        invariant
            0 <= i <= text@.len(),
            ts@.len() == gt.len(),
            forall|j: int| 0 <= j < ts@.len() ==> #[trigger] ts@[j]@ == gt[j],
            cur@.len() > 0 <==> (i > 0 && !is_space(text@[i - 1])),
            tokens(text@.take(i as int)) == if cur@.len() > 0 {
                gt.push(cur@)
            } else {
                gt
            },
        decreases text@.len() - i,
    {
        let b = text[i];
        let ghost pre = text@.take(i as int);
        let ghost next = text@.take(i + 1);
        assert(next.drop_last() =~= pre);
        assert(next.last() == b);
        if b == 32 || (9 <= b && b <= 13) {
            assert(tokens(next) == tokens(pre));
            if cur.len() > 0 {
                proof {
                    gt = gt.push(cur@);
                }
                ts.push(cur);
                cur = Vec::new();
            }
        } else {
            if cur.len() > 0 {
                assert(next[next.len() - 2] == text@[i - 1]);
                assert(gt.push(cur@).drop_last() =~= gt);
                assert(tokens(next) == gt.push(cur@.push(b)));
            } else {
                assert(tokens(next) == gt.push(seq![b]));
                assert(cur@.push(b) =~= seq![b]);
            }
            cur.push(b);
        }
        i += 1;
    }
    if cur.len() > 0 {
        proof {
            gt = gt.push(cur@);
        }
        ts.push(cur);
    }
    assert(text@.take(text@.len() as int) =~= text@);
    ts
}

/// The digit a token stands for, or why it is refused.
fn read_token(t: &Vec<u8>) -> (r: Result<u8, BoardError>)
    ensures
        match token_error(t@) {
            Some(e) => r == Err::<u8, BoardError>(e),
            None => r == Ok::<u8, BoardError>(digits_value(number_body(t@)) as u8),
        },
        token_error(t@) is None ==> 0 <= digits_value(number_body(t@)) <= 9,
{
    let start: usize = if t.len() > 0 && t[0] == 43 {
        1
    } else {
        0
    };
    let ghost body = number_body(t@);
    assert(body =~= t@.subrange(start as int, t@.len() as int));
    if start == t.len() {
        assert(!is_number(t@));
        return Err(BoardError::NotANumber);
    }
    let mut acc: u8 = 0;
    let mut j: usize = start;
    assert(t@.subrange(start as int, start as int) =~= Seq::<u8>::empty());
    while j < t.len()
        invariant
            start <= j <= t@.len(),
            body == number_body(t@),
            body == t@.subrange(start as int, t@.len() as int),
            forall|k: int| start <= k < j ==> is_digit(#[trigger] t@[k]),
            digits_value(t@.subrange(start as int, j as int)) >= 0,
            acc <= 10,
            acc == if digits_value(t@.subrange(start as int, j as int)) >= 10 {
                10
            } else {
                digits_value(t@.subrange(start as int, j as int))
            },
        decreases t@.len() - j,
    {
        let d = t[j];
        if d < 48 || d > 57 {
            assert(body[j - start] == d);
            assert(!is_digit(body[j - start]));
            assert(!is_number(t@));
            return Err(BoardError::NotANumber);
        }
        let ghost sub = t@.subrange(start as int, j + 1);
        assert(sub.drop_last() =~= t@.subrange(start as int, j as int));
        let x = acc * 10 + (d - 48);
        acc = if x > 10 {
            10
        } else {
            x
        };
        j += 1;
    }
    assert(t@.subrange(start as int, j as int) =~= body);
    assert forall|i: int| 0 <= i < body.len() implies is_digit(#[trigger] body[i]) by {
        assert(body[i] == t@[i + start]);
    }
    if acc > 9 {
        Err(BoardError::NumberOutOfRange)
    } else {
        Ok(acc)
    }
}

/// Each character of `text` as its byte.
fn text_bytes(text: &str) -> (out: Vec<u8>)
    ensures
        out@ == char_bytes(text@),
{
    let mut out: Vec<u8> = Vec::new();
    proof {
        broadcast use vstd::string::axiom_spec_iter;
    }
    for ch in it: text.chars()
        invariant
            it.seq() == text@,
            out@ == text@.take(it.index()).map_values(|c: char| char_byte(c)),
    {
        let u = ch as u32;
        let b: u8 = if (9 <= u && u <= 13) || u == 32 || u == 0x85 || u == 0xA0 || u == 0x1680
            || (0x2000 <= u && u <= 0x200A) || u == 0x2028 || u == 0x2029 || u == 0x202F || u
            == 0x205F || u == 0x3000 {
            32
        } else if u < 128 {
            u as u8
        } else {
            128
        };
        proof {
            assert(text@.take(it.index() + 1) =~= text@.take(it.index() as int).push(ch));
        }
        out.push(b);
        assert(out@ =~= text@.take(it.index() + 1).map_values(|c: char| char_byte(c)));
    }
    assert(out@ =~= char_bytes(text@));
    out
}

impl Board {
    /// Reads a board from a text whose numbers are separated by any whitespace,
    /// Unicode whitespace included: the text is read as `from_text` reads its bytes.
    pub fn from_source(text: &str) -> (res: Result<Board, BoardError>)
        ensures
            res is Ok <==> parse_cells(char_bytes(text@)) is Ok,
            res is Ok ==> {
                &&& res->Ok_0.wf()
                &&& res->Ok_0.cells() == parse_cells(char_bytes(text@))->Ok_0
                &&& res->Ok_0.clues() == clues_upto(res->Ok_0.cells(), 81)
            },
            res is Err ==> res->Err_0 == parse_cells(char_bytes(text@))->Err_0,
    {
        let bytes = text_bytes(text);
        Board::from_text(bytes.as_slice())
    }

    /// Reads a board from text: exactly 81 whitespace-separated numbers in `[0, 9]`.
    /// Each non-zero number becomes a clue at its position in scan order.
    pub fn from_text(text: &[u8]) -> (res: Result<Board, BoardError>)
        ensures
            res is Ok <==> parse_cells(text@) is Ok,
            res is Ok ==> {
                &&& res->Ok_0.wf()
                &&& res->Ok_0.cells() == parse_cells(text@)->Ok_0
                &&& res->Ok_0.clues() == clues_upto(res->Ok_0.cells(), 81)
            },
            res is Err ==> res->Err_0 == parse_cells(text@)->Err_0,
    {
        let ts = split_tokens(text);
        let ghost gts = tokens(text@);
        let ghost target = token_digits(gts);
        let mut cells = [0u8; BOARD_SIZE];
        let mut clues: Vec<(u8, u8)> = Vec::new();
        let mut k: usize = 0;
        while k < ts.len()
            invariant
                gts == tokens(text@),
                target == token_digits(gts),
                ts@.len() == gts.len(),
                forall|j: int| 0 <= j < ts@.len() ==> #[trigger] ts@[j]@ == gts[j],
                0 <= k <= 81,
                k <= ts@.len(),
                first_error(gts, k as int) is None,
                forall|p: int| 0 <= p < k ==> token_error(#[trigger] gts[p]) is None,
                forall|p: int| 0 <= p < 81 ==> #[trigger] cells@[p] <= 9,
                forall|p: int| 0 <= p < k ==> #[trigger] cells@[p] == target[p],
                clues@ == clues_upto(target, k as int),
                forall|j: int|
                    0 <= j < clues@.len() ==> #[trigger] clues@[j].0 < k && 1 <= clues@[j].1 <= 9,
                forall|a: int, b: int|
                    0 <= a < b < clues@.len() ==> #[trigger] clues@[a].0 < #[trigger] clues@[b].0,
            decreases ts@.len() - k,
        {
            if k == BOARD_SIZE {
                assert(parse_cells(text@) == Err::<Seq<u8>, BoardError>(BoardError::TooManyNumbers));
                return Err(BoardError::TooManyNumbers);
            }
            match read_token(&ts[k]) {
                Err(e) => {
                    proof {
                        assert(first_error(gts, k + 1) == Some(e));
                        let n = if gts.len() < 81 {
                            gts.len() as int
                        } else {
                            81
                        };
                        lemma_first_error_stable(gts, k + 1, n);
                        assert(parse_cells(text@) == Err::<Seq<u8>, BoardError>(e));
                    }
                    return Err(e);
                },
                Ok(v) => {
                    cells[k] = v;
                    if v != 0 {
                        clues.push((k as u8, v));
                    }
                },
            }
            k += 1;
        }
        if k < BOARD_SIZE {
            return Err(BoardError::TooFewNumbers);
        }
        assert(target =~= parse_cells(text@)->Ok_0);
        assert(cells@ =~= target);
        Ok(Board::new(cells, clues))
    }

    /// The board as text: nine lines, each of nine digits followed by a space.
    pub fn to_text(&self) -> (out: Vec<u8>)
        requires
            self.wf(),
        ensures
            out@ == render_upto(self.cells(), 81),
    {
        let mut out: Vec<u8> = Vec::new();
        let mut p: usize = 0;
        while p < BOARD_SIZE
            invariant
                self.wf(),
                0 <= p <= 81,
                out@ == render_upto(self.cells(), p as int),
            decreases 81 - p,
        {
            let d = self.at(p);
            out.push(d + 48);
            out.push(32);
            if (p + 1) % 9 == 0 {
                out.push(10);
            }
            p += 1;
            assert(out@ =~= render_upto(self.cells(), p as int));
        }
        out
    }
}

} // verus!

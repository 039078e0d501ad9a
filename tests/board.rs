use rudoku::board::{Board, BoardError, BoardInvalid};
use rudoku::candidate::legal_values;

const SOLVED: &str = "1 2 3 4 5 6 7 8 9
4 5 6 7 8 9 1 2 3
7 8 9 1 2 3 4 5 6
2 3 4 5 6 7 8 9 1
5 6 7 8 9 1 2 3 4
8 9 1 2 3 4 5 6 7
3 4 5 6 7 8 9 1 2
6 7 8 9 1 2 3 4 5
9 1 2 3 4 5 6 7 8
";

fn zeros_text() -> String {
    let mut s = String::new();
    for _ in 0..81 {
        s.push_str("0 ");
    }
    s
}

fn solved_cells() -> [u8; 81] {
    let mut cells = [0u8; 81];
    for r in 0..9 {
        for c in 0..9 {
            cells[r * 9 + c] = (((r % 3) * 3 + r / 3 + c) % 9 + 1) as u8;
        }
    }
    cells
}

#[test]
fn test_file_io() {
    let board = Board::from_text(SOLVED.as_bytes()).unwrap();
    assert_eq!(board.get(0, 0), 1);
    assert_eq!(board.get(8, 8), 8);
    let text = board.to_text();
    assert_eq!(String::from_utf8(text.clone()).unwrap(), SOLVED.replace("\n", " \n"));
    let again = Board::from_text(&text).unwrap();
    for r in 0..9 {
        for c in 0..9 {
            assert_eq!(again.get(r, c), board.get(r, c));
        }
    }
    assert!(again.check_invariants());
}

#[test]
fn test_get_set() {
    let mut text = zeros_text();
    text.replace_range(0..1, "7");
    let mut board = Board::from_text(text.as_bytes()).unwrap();
    assert_eq!(board.get(0, 0), 7);
    assert_eq!(board.set(0, 0, 3), Err(BoardError::ClueViolation));
    assert_eq!(board.get(0, 0), 7);
    assert_eq!(board.set(0, 0, 7), Ok(()));
    assert_eq!(board.get(0, 0), 7);
    assert_eq!(board.set(4, 5, 9), Ok(()));
    assert_eq!(board.get(4, 5), 9);
    assert_eq!(board.set(4, 5, 0), Ok(()));
    assert_eq!(board.get(4, 5), 0);
}

#[test]
fn test_verify() {
    let board = Board::new(solved_cells(), Vec::new());
    assert!(board.verify());
    let mut holey = solved_cells();
    holey[40] = 0;
    assert!(!Board::new(holey, Vec::new()).verify());
    let mut swapped = solved_cells();
    swapped.swap(0, 1);
    assert!(!Board::new(swapped, Vec::new()).verify());
    assert!(!Board::empty().verify());
}

#[test]
fn test_invariants() {
    let board = Board::from_text(SOLVED.as_bytes()).unwrap();
    assert!(board.check_invariants());
    let mut cells = solved_cells();
    cells[0] = 2;
    let broken = Board::new(cells, vec![(0, 1)]);
    assert!(!broken.check_invariants());
    assert!(!broken.verify());
}

#[test]
fn reset_restores_clues_only() {
    let mut board = Board::new([0u8; 81], vec![(10, 4), (80, 9)]);
    assert!(!board.check_invariants());
    board.reset();
    assert!(board.check_invariants());
    assert_eq!(board.get(1, 1), 4);
    assert_eq!(board.get(8, 8), 9);
    board.set(3, 3, 5).unwrap();
    board.reset();
    assert_eq!(board.get(3, 3), 0);
    assert_eq!(board.get(1, 1), 4);
}

#[test]
fn verbose_verify_ignores_empty_cells() {
    let board = Board::empty();
    let (ok, list) = board.verbose_verify();
    assert!(ok);
    assert!(list.is_empty());
    let mut cells = [0u8; 81];
    cells[0] = 5;
    cells[1] = 5;
    let (ok, list) = Board::new(cells, Vec::new()).verbose_verify();
    assert!(!ok);
    assert_eq!(list, vec![BoardInvalid::Row(0), BoardInvalid::Square(0)]);
    let mut cells = [0u8; 81];
    cells[4] = 3;
    cells[76] = 3;
    let (_, list) = Board::new(cells, Vec::new()).verbose_verify();
    assert_eq!(list, vec![BoardInvalid::Col(4)]);
}

#[test]
fn legal_values_of_a_cell() {
    let mut cells = [0u8; 81];
    cells[1] = 1;
    cells[9 * 5] = 2;
    cells[10] = 3;
    cells[8] = 9;
    let board = Board::new(cells, Vec::new());
    assert_eq!(legal_values(&board, 0, 0), vec![4, 5, 6, 7, 8]);
    assert_eq!(legal_values(&Board::empty(), 4, 4), vec![1, 2, 3, 4, 5, 6, 7, 8, 9]);
}

#[test]
fn write_compares_with_the_clue_value() {
    let mut cells = [0u8; 81];
    cells[1] = 2;
    let mut board = Board::new(cells, vec![(1, 1)]);
    assert_eq!(board.set(0, 0, 1), Ok(()));
    assert_eq!(board.get(0, 0), 1);
    assert_eq!(board.set(0, 1, 1), Ok(()));
    assert_eq!(board.get(0, 1), 1);
    assert_eq!(board.set(0, 1, 2), Err(BoardError::ClueViolation));
}

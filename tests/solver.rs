use rudoku::board::Board;
use rudoku::solver::{BTSolver, Solver};

fn cells_of(board: &Board) -> Vec<u8> {
    let mut v = Vec::new();
    for r in 0..9 {
        for c in 0..9 {
            v.push(board.get(r, c));
        }
    }
    v
}

#[test]
fn zeros_are_solved() {
    let text = "0 ".repeat(81);
    let mut board = Board::from_text(text.as_bytes()).unwrap();
    assert!(!board.verify());
    assert!(BTSolver::run(&mut board));
    assert!(board.verify());
    assert_eq!(cells_of(&board)[0..9], [1, 2, 3, 4, 5, 6, 7, 8, 9]);
}

#[test]
fn duplicate_clues_are_unsolvable() {
    let mut text = String::from("5 5 ");
    text.push_str(&"0 ".repeat(79));
    let mut board = Board::from_text(text.as_bytes()).unwrap();
    assert!(board.check_invariants());
    assert!(!board.verify());
    let before = cells_of(&board);
    assert!(!BTSolver::run(&mut board));
    assert_eq!(cells_of(&board), before);
    assert_eq!(board.get(0, 0), 5);
    assert_eq!(board.get(0, 1), 5);
    assert_eq!(BTSolver::num_solution(&mut board), 0);
}

#[test]
fn broken_clues_are_unsolvable() {
    let mut board = Board::new([0u8; 81], vec![(0, 3)]);
    assert!(!BTSolver::run(&mut board));
    assert_eq!(board.get(0, 0), 0);
    assert_eq!(BTSolver::num_solution(&mut board), 2);
    assert_eq!(board.get(0, 0), 0);
}

#[test]
fn counting_solutions() {
    let mut board = Board::empty();
    assert_eq!(BTSolver::num_solution(&mut board), 2);
    assert_eq!(BTSolver::count_solutions(&mut board, 5), 5);
    assert_eq!(BTSolver::count_solutions(&mut board, 0), 0);
    assert_eq!(BTSolver::count_solutions(&mut board, 3), 3);
    assert_eq!(cells_of(&board), vec![0u8; 81]);
    assert!(BTSolver::run(&mut board));
    let solved = cells_of(&board);
    assert_eq!(BTSolver::num_solution(&mut board), 1);
    let mut one_hole = board;
    one_hole.set(4, 4, 0).unwrap();
    assert_eq!(BTSolver::num_solution(&mut one_hole), 1);
    assert_eq!(BTSolver::count_solutions(&mut one_hole, 5), 1);
    assert_eq!(one_hole.get(4, 4), 0);
    assert!(BTSolver::run(&mut one_hole));
    assert_eq!(cells_of(&one_hole), solved);
}

#[test]
fn no_completion_counts_zero() {
    let mut cells = [0u8; 81];
    for c in 0..8 {
        cells[c] = (c + 1) as u8;
    }
    cells[9 * 4 + 8] = 9;
    let mut board = Board::new(cells, Vec::new());
    assert_eq!(BTSolver::num_solution(&mut board), 0);
    assert!(!BTSolver::run(&mut board));
    assert_eq!(board.get(0, 8), 0);
}

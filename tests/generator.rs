use rudoku::board::{Board, BoardError};
use rudoku::generator::Generator;
use rudoku::solver::{BTSolver, Solver};

fn cells_of(board: &Board) -> Vec<u8> {
    let mut v = Vec::new();
    for r in 0..9 {
        for c in 0..9 {
            v.push(board.get(r, c));
        }
    }
    v
}

#[test]
fn generated_puzzle_has_one_solution() {
    let mut gen = Generator::new(42);
    let mut board = gen.create();
    assert!(board.check_invariants());
    assert_eq!(BTSolver::num_solution(&mut board), 1);
    let given = cells_of(&board);
    assert!(given.iter().any(|&v| v == 0));
    assert!(BTSolver::run(&mut board));
    assert!(board.verify());
    let solved = cells_of(&board);
    for p in 0..81 {
        if given[p] != 0 {
            assert_eq!(solved[p], given[p]);
        }
    }
}

#[test]
fn same_seed_same_puzzles() {
    let mut a = Generator::new(7);
    let mut b = Generator::new(7);
    for _ in 0..2 {
        assert_eq!(cells_of(&a.create()), cells_of(&b.create()));
    }
}

#[test]
fn different_seeds_differ() {
    let a = cells_of(&Generator::new(1).create());
    let b = cells_of(&Generator::new(2).create());
    assert_ne!(a, b);
}

#[test]
fn generated_clues_are_fixed() {
    let mut board = Generator::new(3).create();
    let mut p = 0;
    while board.get(p / 9, p % 9) == 0 {
        p += 1;
    }
    let (r, c) = (p / 9, p % 9);
    let v = board.get(r, c);
    assert!(board.set(r, c, v % 9 + 1).is_err());
    assert!(board.set(r, c, v).is_ok());
}

fn solved_cells() -> [u8; 81] {
    let mut cells = [0u8; 81];
    for r in 0..9 {
        for c in 0..9 {
            cells[r * 9 + c] = (((r % 3) * 3 + r / 3 + c) % 9 + 1) as u8;
        }
    }
    cells
}

#[test]
fn puncture_step_outcomes() {
    let mut board = Board::new(solved_cells(), Vec::new());
    assert_eq!(Generator::puncture_step(&mut board, 81 + 40, 3), 0);
    assert_eq!(board.get(4, 4), 0);
    assert_eq!(Generator::puncture_step(&mut board, 40, 3), 4);
    assert_eq!(board.get(4, 4), 0);
    let before = cells_of(&board);
    assert_eq!(BTSolver::num_solution(&mut board), 1);
    let mut empty = Board::empty();
    assert_eq!(Generator::puncture_step(&mut empty, 0, 0), 1);
    let mut one = Board::new([0u8; 81], Vec::new());
    one.set(0, 0, 1).unwrap();
    assert_eq!(Generator::puncture_step(&mut one, 0, 7), 8);
    assert_eq!(one.get(0, 0), 1);
    assert_eq!(cells_of(&board), before);
}

#[test]
fn write_box_places_digits() {
    let mut board = Board::empty();
    Generator::write_box(&mut board, 3, 6, &vec![9, 8, 7, 6, 5, 4, 3, 2, 1]);
    assert_eq!(board.get(3, 6), 9);
    assert_eq!(board.get(3, 8), 7);
    assert_eq!(board.get(4, 6), 6);
    assert_eq!(board.get(5, 8), 1);
    assert_eq!(board.get(2, 6), 0);
    assert_eq!(board.get(3, 5), 0);
    assert!(board.set(0, 0, 1) != Err(BoardError::ClueViolation));
}

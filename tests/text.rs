use rudoku::board::{Board, BoardError};

fn numbers(n: usize, fill: &str) -> String {
    let mut s = String::new();
    for _ in 0..n {
        s.push_str(fill);
        s.push(' ');
    }
    s
}

#[test]
fn zeros_load_and_render() {
    let board = Board::from_text(numbers(81, "0").as_bytes()).unwrap();
    assert!(board.check_invariants());
    let text = String::from_utf8(board.to_text()).unwrap();
    assert_eq!(text, "0 0 0 0 0 0 0 0 0 \n".repeat(9));
}

#[test]
fn any_layout_of_whitespace() {
    let mut s = String::from("\t+5\r\n");
    s.push_str(&numbers(80, "0"));
    let board = Board::from_text(s.as_bytes()).unwrap();
    assert_eq!(board.get(0, 0), 5);
    assert_eq!(board.get(0, 1), 0);
}

#[test]
fn too_many_numbers() {
    assert_eq!(Board::from_text(numbers(82, "0").as_bytes()).err(), Some(BoardError::TooManyNumbers));
    let mut s = numbers(81, "0");
    s.push_str("x");
    assert_eq!(Board::from_text(s.as_bytes()).err(), Some(BoardError::TooManyNumbers));
}

#[test]
fn too_few_numbers() {
    assert_eq!(Board::from_text(numbers(80, "0").as_bytes()).err(), Some(BoardError::TooFewNumbers));
    assert_eq!(Board::from_text(b"").err(), Some(BoardError::TooFewNumbers));
}

#[test]
fn out_of_range_number() {
    let mut s = numbers(40, "0");
    s.push_str("10 ");
    s.push_str(&numbers(40, "0"));
    assert_eq!(Board::from_text(s.as_bytes()).err(), Some(BoardError::NumberOutOfRange));
}

#[test]
fn not_a_number() {
    let mut s = numbers(3, "0");
    s.push_str("a ");
    s.push_str(&numbers(77, "0"));
    assert_eq!(Board::from_text(s.as_bytes()).err(), Some(BoardError::NotANumber));
    let mut s = String::from("-1 ");
    s.push_str(&numbers(80, "0"));
    assert_eq!(Board::from_text(s.as_bytes()).err(), Some(BoardError::NotANumber));
}

#[test]
fn first_refusal_wins() {
    let mut s = String::from("12 x ");
    s.push_str(&numbers(79, "0"));
    assert_eq!(Board::from_text(s.as_bytes()).err(), Some(BoardError::NumberOutOfRange));
}

#[test]
fn round_trip_keeps_cells_and_clues() {
    let mut s = String::new();
    for p in 0..81 {
        s.push_str(&format!("{} ", (p * 7) % 10));
    }
    let board = Board::from_text(s.as_bytes()).unwrap();
    let again = Board::from_text(&board.to_text()).unwrap();
    for r in 0..9 {
        for c in 0..9 {
            assert_eq!(again.get(r, c), board.get(r, c));
        }
    }
    let mut copy = again;
    assert_eq!(copy.set(0, 1, 1), Err(BoardError::ClueViolation));
    assert_eq!(copy.set(0, 0, 1), Ok(()));
    copy.reset();
    assert_eq!(copy.get(0, 0), 0);
    assert_eq!(copy.get(0, 1), 7);
}

#[test]
fn unicode_whitespace_separates() {
    let mut s = String::from("7\u{a0}");
    for i in 0..80 {
        s.push_str(if i % 2 == 0 { "0\u{3000}" } else { "0\u{2003}\n" });
    }
    let board = Board::from_source(&s).unwrap();
    assert_eq!(board.get(0, 0), 7);
    assert_eq!(board.get(8, 8), 0);
    assert!(Board::from_text(s.as_bytes()).is_err());
}

#[test]
fn non_ascii_inside_a_token() {
    let mut s = String::from("5\u{e9} ");
    s.push_str(&numbers(80, "0"));
    assert_eq!(Board::from_source(&s).err(), Some(BoardError::NotANumber));
    assert_eq!(Board::from_source(&numbers(81, "0")).map(|b| b.get(0, 0)), Ok(0));
}

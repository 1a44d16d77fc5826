use sudoku_tool::sudoku::Sudoku;

fn solved_preset() -> [[Option<u8>; 9]; 9] {
    [
        [Some(5), Some(3), Some(4), Some(6), Some(7), Some(8), Some(9), Some(1), Some(2)],
        [Some(6), Some(7), Some(2), Some(1), Some(9), Some(5), Some(3), Some(4), Some(8)],
        [Some(1), Some(9), Some(8), Some(3), Some(4), Some(2), Some(5), Some(6), Some(7)],
        [Some(8), Some(5), Some(9), Some(7), Some(6), Some(1), Some(4), Some(2), Some(3)],
        [Some(4), Some(2), Some(6), Some(8), Some(5), Some(3), Some(7), Some(9), Some(1)],
        [Some(7), Some(1), Some(3), Some(9), Some(2), Some(4), Some(8), Some(5), Some(6)],
        [Some(9), Some(6), Some(1), Some(5), Some(3), Some(7), Some(2), Some(8), Some(4)],
        [Some(2), Some(8), Some(7), Some(4), Some(1), Some(9), Some(6), Some(3), Some(5)],
        [Some(3), Some(4), Some(5), Some(2), Some(8), Some(6), Some(1), Some(7), Some(9)],
    ]
}

#[test]
fn sudoku_tests_test_empty_board() {
    let empty_sudoku = Sudoku::new();
    assert!(
        !empty_sudoku.is_solved(),
        "Empty board should not be solved"
    );
}

#[test]
fn sudoku_tests_test_solved_board() {
    let solved_sudoku = Sudoku::from_preset(solved_preset());
    assert!(
        solved_sudoku.is_solved(),
        "Solved board should be marked as solved"
    );
}

#[test]
fn sudoku_tests_test_set_cell_valid() {
    let mut sudoku = Sudoku::new();
    assert!(sudoku.set_cell(0, 0, 5).is_ok());
    assert!(sudoku.set_cell(8, 8, 9).is_ok());
}

#[test]
fn sudoku_tests_test_set_cell_invalid_position() {
    let mut sudoku = Sudoku::new();
    assert!(sudoku.set_cell(10, 0, 5).is_err());
    assert!(sudoku.set_cell(0, 10, 5).is_err());
}

#[test]
fn sudoku_tests_test_set_cell_invalid_value() {
    let mut sudoku = Sudoku::new();
    assert!(sudoku.set_cell(0, 0, 0).is_err());
    assert!(sudoku.set_cell(0, 0, 10).is_err());
}

#[test]
fn sudoku_tests_test_modify_solved_board() {
    let mut solved_sudoku = Sudoku::from_preset(solved_preset());
    assert!(solved_sudoku.is_solved());

    solved_sudoku.set_cell(0, 0, 6).unwrap();
    assert!(
        !solved_sudoku.is_solved(),
        "After modification, board should not be solved"
    );
}

#[test]
fn test_from_string_dot_notation() {
    let puzzle = Sudoku::from_string(
        "1..5.37..6.3..8.9......98...1.......8761..........6...........7.8.9.76.47...6.312",
    )
    .expect("Valid dot notation should parse");

    assert_eq!(puzzle.get_solved_value(0, 0), Some(1));
    assert_eq!(puzzle.get_solved_value(0, 1), None);
    assert_eq!(puzzle.get_solved_value(0, 2), None);
    assert_eq!(puzzle.get_solved_value(0, 3), Some(5));
}

#[test]
fn test_from_string_zero_notation() {
    let puzzle = Sudoku::from_string(
        "100503700603008090000009800010000000876100000000000600000000000780907604700060312",
    )
    .expect("Valid zero notation should parse");

    assert_eq!(puzzle.get_solved_value(0, 0), Some(1));
    assert_eq!(puzzle.get_solved_value(0, 1), None);
    assert_eq!(puzzle.get_solved_value(0, 2), None);
    assert_eq!(puzzle.get_solved_value(0, 3), Some(5));
}

#[test]
fn test_from_string_with_whitespace() {
    let puzzle = Sudoku::from_string("1..5  .37..6.3..  8.9......98...1  .......8761.... ......6..  .........7.8.9.76.47...6.312")
        .expect("String with whitespace should parse");

    assert_eq!(puzzle.get_solved_value(0, 0), Some(1));
    assert_eq!(puzzle.get_solved_value(0, 1), None);
}

#[test]
fn test_from_string_invalid_length() {
    let result = Sudoku::from_string("123");
    assert!(result.is_err());

    let result = Sudoku::from_string(&"1".repeat(100));
    assert!(result.is_err());
}

#[test]
fn test_from_string_invalid_character() {
    let result = Sudoku::from_string(
        "1..5.37..6.3..8.9......98...1.......8761..........6...........7.8.9.76.47...6.31A",
    );
    assert!(result.is_err());
}

#[test]
fn test_to_string() {
    let source_text =
        "1..5.37..6.3..8.9......98...1.......8761..........6...........7.8.9.76.47...6.312";
    let puzzle = Sudoku::from_string(source_text).unwrap();
    let converted_string = puzzle.to_string();

    assert_eq!(converted_string.len(), 81);
    assert_eq!(&converted_string[0..4], "1..5");
}

#[test]
fn grid_text_reads_rows_of_words() {
    let text = "\n5 3 _ _ 7 _ _ _ _\n6 _ _ 1 9 5 _ _ _\n_ 9 8 _ _ _ _ 6 _\n\n8 _ _ _ 6 _ _ _ 3\n4 _ _ 8 _ 3 _ _ 1\n7 _ _ _ 2 _ _ _ 6\n_ 6 _ _ _ _ 2 8 _\n_ _ _ 4 1 9 _ _ 5\r\n_ _ _ _ 8 _ _ 7 +9\n   \n";
    let puzzle = Sudoku::from_grid_text(text).expect("nine rows of nine words");
    assert_eq!(
        puzzle.to_string(),
        "53..7....6..195....98....6.8...6...34..8.3..17...2...6.6....28....419..5....8..79"
    );
}

#[test]
fn grid_text_rejects_bad_rows() {
    let good_row = "1 2 3 4 5 6 7 8 9\n";
    let nine = good_row.repeat(9);
    assert!(Sudoku::from_grid_text(&nine).is_ok());
    assert!(Sudoku::from_grid_text(&good_row.repeat(8)).is_err());
    assert!(Sudoku::from_grid_text(&good_row.repeat(10)).is_err());
    let short = format!("{}1 2 3\n", good_row.repeat(8));
    assert!(Sudoku::from_grid_text(&short).is_err());
    let zero = format!("{}0 2 3 4 5 6 7 8 9", good_row.repeat(8));
    assert!(Sudoku::from_grid_text(&zero).is_err());
    let letter = format!("{}x 2 3 4 5 6 7 8 9", good_row.repeat(8));
    assert!(Sudoku::from_grid_text(&letter).is_err());
    let big = format!("{}10 2 3 4 5 6 7 8 9", good_row.repeat(8));
    assert!(Sudoku::from_grid_text(&big).is_err());
    let padded = format!("{}007 2 3 4 5 6 _ 8 9", good_row.repeat(8));
    let puzzle = Sudoku::from_grid_text(&padded).unwrap();
    assert_eq!(puzzle.get_solved_value(8, 0), Some(7));
    assert_eq!(puzzle.get_solved_value(8, 6), None);
}

use sudoku_tool::bf_solver::{
    find_all_solutions, find_one_solution, find_one_solution_custom_cell_order,
    find_one_solution_custom_rowcol_order, find_one_solution_strategy, is_index_permutation,
    is_safe, is_valid_cell_order, SearchStrategy, SolverStats,
};
use sudoku_tool::order::{random_cell_order, random_index_order};
use sudoku_tool::sudoku::Sudoku;

const MEDIUM: &str = "..3.2.6..9..3.5..1..18.64....81.29..7.......8..67.82....26.95..8..2.3..9..5.1.3..";

const SOLVED: &str =
    "534678912672195348198342567859761423426853791713924856961537284287419635345286179";

// The solved grid with the cells (3,5), (3,8), (4,5), (4,8) emptied: the 1 and
// the 3 there may trade places, so exactly two grids complete it.
const TWO_SOLUTIONS: &str =
    "53467891267219534819834256785976.42.42685.79.713924856961537284287419635345286179";

fn row_major() -> Vec<(usize, usize)> {
    let mut cells = Vec::new();
    for i in 0..9 {
        for j in 0..9 {
            cells.push((i, j));
        }
    }
    cells
}

#[test]
fn medium_puzzle_has_one_solution_under_default_and_random_orders() {
    let puzzle = Sudoku::from_string(MEDIUM).unwrap();
    let (default_solution, default_stats) = find_one_solution(&puzzle);
    let (random_solution, random_stats) =
        find_one_solution_strategy(&puzzle, SearchStrategy::RowColRandom);
    let default_solution = default_solution.expect("default order finds the solution");
    let random_solution = random_solution.expect("random order finds the solution");
    assert_eq!(default_stats.solutions_found, 1);
    assert_eq!(random_stats.solutions_found, 1);
    assert!(default_solution.is_solved());
    assert_eq!(default_solution.to_string(), random_solution.to_string());
    assert_eq!(
        default_solution.to_string(),
        "483921657967345821251876493548132976729564138136798245372689514814253769695417382"
    );
    let (all, all_stats) = find_all_solutions(&puzzle);
    assert_eq!(all.len(), 1);
    assert_eq!(all_stats.solutions_found, 1);
    assert_eq!(all[0].to_string(), default_solution.to_string());
}

#[test]
fn two_solution_fixture_yields_two_different_grids() {
    let puzzle = Sudoku::from_string(TWO_SOLUTIONS).unwrap();
    let (solutions, stats) = find_all_solutions(&puzzle);
    assert_eq!(stats.solutions_found, 2);
    assert_eq!(solutions.len(), 2);
    assert!(solutions[0].is_solved());
    assert!(solutions[1].is_solved());
    assert_ne!(solutions[0].to_string(), solutions[1].to_string());
    // Row by row, 1 is tried before 3 at (3,5): the solved grid the fixture came from comes first.
    assert_eq!(solutions[0].to_string(), SOLVED);
    assert_eq!(
        solutions[1].to_string(),
        "534678912672195348198342567859763421426851793713924856961537284287419635345286179"
    );
    assert_eq!(stats.leaves, 2);
    assert_eq!(stats.nodes_explored, 7);
    assert_eq!(stats.backtracks, 8);
    assert!(stats.is_tree_data_consistent());
}

#[test]
fn early_stop_explores_no_more_than_exhaustive_search() {
    let puzzle = Sudoku::from_string(TWO_SOLUTIONS).unwrap();
    let (one, one_stats) = find_one_solution(&puzzle);
    let (_, all_stats) = find_all_solutions(&puzzle);
    assert!(one.is_some());
    assert_eq!(one_stats.solutions_found, 1);
    assert!(one_stats.nodes_explored <= all_stats.nodes_explored);
    assert_eq!(one_stats.nodes_explored, 4);
    assert_eq!(one_stats.backtracks, 0);
    assert_eq!(one_stats.leaves, 1);
    assert_eq!(all_stats.nodes_explored, 7);
    assert_eq!(all_stats.backtracks, 8);
}

#[test]
fn same_order_same_result() {
    let puzzle = Sudoku::from_string(MEDIUM).unwrap();
    let rows = [4, 2, 7, 0, 8, 1, 5, 3, 6];
    let cols = [8, 0, 6, 2, 4, 1, 3, 7, 5];
    let (a, sa) = find_one_solution_custom_rowcol_order(&puzzle, rows, cols);
    let (b, sb) = find_one_solution_custom_rowcol_order(&puzzle, rows, cols);
    assert_eq!(a.unwrap().to_string(), b.unwrap().to_string());
    assert_eq!(sa.nodes_explored, sb.nodes_explored);
    assert_eq!(sa.leaves, sb.leaves);
    assert_eq!(sa.backtracks, sb.backtracks);
    assert_eq!(sa.max_recursion_depth, sb.max_recursion_depth);
    assert_eq!(sa.tree_width_by_level, sb.tree_width_by_level);
}

#[test]
fn full_board_takes_no_decision_node() {
    let puzzle = Sudoku::from_string(SOLVED).unwrap();
    let (solution, stats) = find_one_solution(&puzzle);
    assert_eq!(solution.unwrap().to_string(), SOLVED);
    assert_eq!(stats.nodes_explored, 0);
    assert_eq!(stats.leaves, 1);
    assert_eq!(stats.max_recursion_depth, 0);
}

#[test]
fn histogram_sums_to_node_count() {
    for text in [MEDIUM, TWO_SOLUTIONS] {
        let puzzle = Sudoku::from_string(text).unwrap();
        let (_, stats) = find_one_solution(&puzzle);
        assert!(stats.is_tree_data_consistent());
        assert_eq!(stats.total_nodes_from_tree(), stats.nodes_explored);
    }
}

#[test]
fn empty_board_is_solved_along_any_order() {
    let puzzle = Sudoku::new();
    let mut reversed = row_major();
    reversed.reverse();
    let (solution, stats) = find_one_solution_custom_cell_order(&puzzle, &reversed);
    let solution = solution.unwrap();
    assert!(solution.is_solved());
    assert_eq!(stats.solutions_found, 1);
    assert_eq!(stats.tree_width_by_level[0], 1);
}

#[test]
fn unsolvable_puzzle_yields_nothing() {
    // Row 0 leaves only 9 for its last cell, which column 8 already holds.
    let puzzle = Sudoku::from_string(
        "12345678.........9...............................................................",
    )
    .unwrap();
    let (solution, stats) = find_one_solution(&puzzle);
    assert!(solution.is_none());
    assert_eq!(stats.solutions_found, 0);
    assert_eq!(stats.nodes_explored, 1);
    assert_eq!(stats.leaves, 1);
    assert_eq!(stats.dead_end_leaves(), 1);
    let (all, all_stats) = find_all_solutions(&puzzle);
    assert!(all.is_empty());
    assert_eq!(all_stats.solutions_found, 0);
}

#[test]
fn digit_in_row_blocks_the_whole_row() {
    let mut rows = [0u16; 9];
    let cols = [0u16; 9];
    let subgrids = [0u16; 9];
    rows[4] |= 1 << 7;
    for j in 0..9 {
        assert!(!is_safe(&rows, &cols, &subgrids, 4, j, 7));
        assert!(is_safe(&rows, &cols, &subgrids, 4, j, 6));
    }
    assert!(is_safe(&rows, &cols, &subgrids, 0, 0, 7));
    assert!(is_safe(&rows, &cols, &subgrids, 8, 3, 7));
}

#[test]
fn digit_in_box_blocks_the_box_only() {
    let rows = [0u16; 9];
    let cols = [0u16; 9];
    let mut subgrids = [0u16; 9];
    subgrids[5] |= 1 << 2;
    assert!(!is_safe(&rows, &cols, &subgrids, 3, 6, 2));
    assert!(!is_safe(&rows, &cols, &subgrids, 5, 8, 2));
    assert!(is_safe(&rows, &cols, &subgrids, 6, 8, 2));
    assert!(is_safe(&rows, &cols, &subgrids, 3, 5, 2));
}

#[test]
fn stats_derived_metrics() {
    let mut stats = SolverStats::new();
    stats.tree_width_by_level[0] = 1;
    stats.tree_width_by_level[3] = 5;
    stats.tree_width_by_level[7] = 5;
    stats.tree_width_by_level[9] = 2;
    stats.nodes_explored = 13;
    stats.leaves = 4;
    stats.solutions_found = 1;
    assert_eq!(stats.max_tree_width(), (5, 3));
    assert_eq!(stats.total_nodes_from_tree(), 13);
    assert!(stats.is_tree_data_consistent());
    assert_eq!(stats.branching_levels_count(), 4);
    assert_eq!(stats.non_zero_tree_widths(), vec![(0, 1), (3, 5), (7, 5), (9, 2)]);
    assert_eq!(stats.dead_end_leaves(), 3);
    stats.nodes_explored = 12;
    assert!(!stats.is_tree_data_consistent());
    stats.tree_width_by_level[80] = usize::MAX;
    assert!(!stats.is_tree_data_consistent());
    stats.solutions_found = 9;
    assert_eq!(stats.dead_end_leaves(), 0);
}

#[test]
fn stats_of_empty_histogram() {
    let stats = SolverStats::default();
    assert_eq!(stats.max_tree_width(), (0, 0));
    assert_eq!(stats.total_nodes_from_tree(), 0);
    assert!(stats.is_tree_data_consistent());
    assert_eq!(stats.branching_levels_count(), 0);
    assert!(stats.non_zero_tree_widths().is_empty());
}

#[test]
fn cell_order_validation() {
    let good = row_major();
    assert!(is_valid_cell_order(&good));
    let mut repeated = good.clone();
    repeated[80] = (0, 0);
    assert!(!is_valid_cell_order(&repeated));
    let mut outside = good.clone();
    outside[5] = (9, 0);
    assert!(!is_valid_cell_order(&outside));
    assert!(!is_valid_cell_order(&good[..80]));
    assert!(is_index_permutation(&[3, 1, 4, 0, 5, 2, 6, 8, 7]));
    assert!(!is_index_permutation(&[3, 1, 4, 0, 5, 2, 6, 8, 8]));
    assert!(!is_index_permutation(&[3, 1, 4, 0, 5, 2, 6, 8, 9]));
    assert!(SearchStrategy::CustomCell { cell_order: good }.is_well_formed());
    assert!(!SearchStrategy::CustomCell { cell_order: repeated }.is_well_formed());
    assert!(!SearchStrategy::CustomRowCol { row_order: [0; 9], col_order: [0, 1, 2, 3, 4, 5, 6, 7, 8] }
        .is_well_formed());
    assert!(SearchStrategy::Default.is_well_formed());
}

#[test]
fn random_orders_are_permutations_and_move() {
    let order = random_cell_order();
    assert!(is_valid_cell_order(&order));
    assert_ne!(order, row_major());
    let mut moved = false;
    for _ in 0..5 {
        let p = random_index_order();
        assert!(is_index_permutation(&p));
        if p != [0, 1, 2, 3, 4, 5, 6, 7, 8] {
            moved = true;
        }
    }
    assert!(moved);
}

#[test]
fn sudoku_text_round_trip() {
    let puzzle = Sudoku::from_string(MEDIUM).unwrap();
    assert_eq!(puzzle.to_string(), MEDIUM);
    let spaced = Sudoku::from_string("  5 3 4 6 7 8 9 1 2\n672195348\t198342567859761423426853791713924856961537284287419635345286179 ")
        .unwrap();
    assert_eq!(spaced.to_string(), SOLVED);
    assert!(Sudoku::from_string(&SOLVED[..80]).is_err());
    assert!(Sudoku::from_string("x").is_err());
    let with_zero = MEDIUM.replace('.', "0");
    assert_eq!(Sudoku::from_string(&with_zero).unwrap().to_string(), MEDIUM);
}

#[test]
fn remove_possibility_only_touches_open_cells() {
    let mut puzzle = Sudoku::from_string(MEDIUM).unwrap();
    // (0,0) is open to all nine digits.
    assert!(puzzle.remove_possibility(0, 0, 4));
    assert!(!puzzle.remove_possibility(0, 0, 4));
    for d in [1, 2, 3, 5, 6, 7, 8] {
        assert!(puzzle.remove_possibility(0, 0, d));
    }
    // Only 9 is left: the cell is now solved and stays so.
    assert_eq!(puzzle.get_solved_value(0, 0), Some(9));
    assert!(!puzzle.remove_possibility(0, 0, 9));
    // (0,2) holds the clue 3.
    assert!(!puzzle.remove_possibility(0, 2, 3));
    assert_eq!(puzzle.get_solved_value(0, 2), Some(3));
    assert!(!puzzle.remove_possibility(9, 0, 1));
}

#[test]
fn from_board_keeps_entries() {
    let mut board = [[0u8; 9]; 9];
    board[2][7] = 4;
    board[8][8] = 9;
    let sudoku = Sudoku::from_board(&board);
    assert_eq!(sudoku.get_solved_value(2, 7), Some(4));
    assert_eq!(sudoku.get_solved_value(8, 8), Some(9));
    assert_eq!(sudoku.get_solved_value(0, 0), None);
    assert!(!sudoku.is_solved());
}


#[test]
fn unicode_spaces_are_skipped() {
    let spaced = format!("{}\u{3000}{}\u{a0}{}", &MEDIUM[..27], &MEDIUM[27..54], &MEDIUM[54..]);
    let puzzle = Sudoku::from_string(&spaced).unwrap();
    assert_eq!(puzzle.to_string(), MEDIUM);
}

#[test]
fn first_solution_is_first_of_all_solutions() {
    let puzzle = Sudoku::from_string(TWO_SOLUTIONS).unwrap();
    let (one, _) = find_one_solution(&puzzle);
    let (all, _) = find_all_solutions(&puzzle);
    assert_eq!(one.unwrap().to_string(), all[0].to_string());
    assert!(all[0].to_string() < all[1].to_string());
}

#[test]
fn grid_text_open_cells_keep_all_candidates() {
    let row = "_ 2 3 4 5 6 7 8 9\n";
    let text = row.repeat(9);
    let mut puzzle = Sudoku::from_grid_text(&text).unwrap();
    assert_eq!(puzzle.get_solved_value(0, 0), None);
    assert!(puzzle.remove_possibility(0, 0, 9));
    assert!(puzzle.remove_possibility(0, 0, 1));
    assert!(!puzzle.remove_possibility(0, 1, 2));
    assert_eq!(puzzle.get_solved_value(0, 1), Some(2));
}

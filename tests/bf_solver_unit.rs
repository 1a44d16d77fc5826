use sudoku_tool::bf_solver::{find_all_solutions, find_one_solution, is_safe};
use sudoku_tool::sudoku::Sudoku;

#[test]
fn bf_solver_test_solve_empty_puzzle() {
    let puzzle = Sudoku::new();
    let (solution, stats) = find_one_solution(&puzzle);

    assert!(solution.is_some(), "Empty puzzle should have a solution");
    assert!(stats.solutions_found == 1);
    assert!(stats.nodes_explored > 0);

    println!("{}", puzzle.to_string())
}

#[test]
fn bf_solver_test_solve_already_solved_puzzle() {
    let preset = [
        [Some(5), Some(3), Some(4), Some(6), Some(7), Some(8), Some(9), Some(1), Some(2)],
        [Some(6), Some(7), Some(2), Some(1), Some(9), Some(5), Some(3), Some(4), Some(8)],
        [Some(1), Some(9), Some(8), Some(3), Some(4), Some(2), Some(5), Some(6), Some(7)],
        [Some(8), Some(5), Some(9), Some(7), Some(6), Some(1), Some(4), Some(2), Some(3)],
        [Some(4), Some(2), Some(6), Some(8), Some(5), Some(3), Some(7), Some(9), Some(1)],
        [Some(7), Some(1), Some(3), Some(9), Some(2), Some(4), Some(8), Some(5), Some(6)],
        [Some(9), Some(6), Some(1), Some(5), Some(3), Some(7), Some(2), Some(8), Some(4)],
        [Some(2), Some(8), Some(7), Some(4), Some(1), Some(9), Some(6), Some(3), Some(5)],
        [Some(3), Some(4), Some(5), Some(2), Some(8), Some(6), Some(1), Some(7), Some(9)],
    ];

    let puzzle = Sudoku::from_preset(preset);

    let (solution, stats) = find_one_solution(&puzzle);
    assert!(
        solution.is_some(),
        "Already solved puzzle should return a solution"
    );
    assert!(
        stats.nodes_explored <= 81,
        "Solved puzzle should require minimal exploration"
    );
}

#[test]
fn test_shultz_301() {
    let preset = [
        [None,    Some(3), Some(9), Some(5), None,     None,     None,     None,     None    ],
        [None,    None,    None,    Some(8), None,     None,     None,     Some(7),  None    ],
        [None,    None,    None,    None,    Some(1),  None,     Some(9),  None,     Some(4) ],
        [Some(1), None,    None,    Some(4), None,     None,     None,     None,     Some(3) ],
        [None,    None,    None,    None,    None,     None,     None,     None,     None    ],
        [None,    None,    Some(7), None,    None,     None,     Some(8),  Some(6),  None    ],
        [None,    None,    Some(6), Some(7), None,     Some(8),  Some(2),  None,     None    ],
        [None,    Some(1), None,    None,    Some(9),  None,     None,     None,     Some(5) ],
        [None,    None,    None,    None,    None,     Some(1),  None,     None,     Some(8) ],
    ];

    let puzzle = Sudoku::from_preset(preset);

    let (solution, stats) = find_one_solution(&puzzle);
    assert!(solution.is_some(), "Puzzle should have a solution");
    assert!(stats.solutions_found == 1);

    if let Some(solved_puzzle) = solution {
        assert!(solved_puzzle.is_solved(), "Solution should be valid");
        println!("{}", solved_puzzle.to_string());
        println!("nodes explored: {}", stats.nodes_explored);
    }
}

#[test]
fn bf_solver_test_mepham_d() {
    let preset = [
        [None,    Some(9), None,    Some(7), None,     None,     Some(8), Some(6), None    ],
        [None,    Some(3), Some(1), None,    None,     Some(5),  None,    Some(2), None    ],
        [Some(8), None,    Some(6), None,    None,     None,     None,    None,    None    ],
        [None,    None,    Some(7), None,    Some(5),  None,     None,    None,    Some(6) ],
        [None,    None,    None,    Some(3), None,     Some(7),  None,    None,    None    ],
        [Some(5), None,    None,    None,    Some(1),  None,     Some(7), None,    None    ],
        [None,    None,    None,    None,    None,     None,     Some(1), None,    Some(9) ],
        [None,    Some(2), None,    Some(6), None,     None,     Some(3), Some(5), None    ],
        [None,    Some(5), Some(4), None,    None,     Some(8),  None,    Some(7), None    ],
    ];

    let puzzle = Sudoku::from_preset(preset);

    let (solution, stats) = find_one_solution(&puzzle);
    assert!(solution.is_some(), "Puzzle should have a solution");
    assert!(stats.solutions_found == 1);

    if let Some(solved_puzzle) = solution {
        assert!(solved_puzzle.is_solved(), "Solution should be valid");
        println!("{}", solved_puzzle.to_string());
    }
}

#[test]
fn bf_solver_test_is_safe_function() {
    let mut rows = [0u16; 9];
    let mut cols = [0u16; 9];
    let mut subgrids = [0u16; 9];

    rows[0] |= 1 << 5;
    cols[0] |= 1 << 5;
    subgrids[0] |= 1 << 5;

    assert!(!is_safe(&rows, &cols, &subgrids, 0, 1, 5));
    assert!(!is_safe(&rows, &cols, &subgrids, 1, 0, 5));
    assert!(!is_safe(&rows, &cols, &subgrids, 1, 1, 5));

    assert!(is_safe(&rows, &cols, &subgrids, 0, 1, 6));
}

#[test]
fn bf_solver_test_tree_width_tracking() {
    let puzzle = Sudoku::new();
    let (solution, stats) = find_one_solution(&puzzle);

    assert!(solution.is_some());

    let total_nodes: usize = stats.tree_width_by_level.iter().sum();
    assert_eq!(total_nodes, stats.nodes_explored);
    assert_eq!(stats.tree_width_by_level[0], 1);

    assert!(stats.max_recursion_depth <= 80);

    if let Some(solved_puzzle) = solution {
        assert!(solved_puzzle.is_solved(), "Solution should be valid");
        println!("{}", solved_puzzle.to_string())
    }

    println!("Tree width by level:");
    for (depth, width) in stats.tree_width_by_level.iter().enumerate() {
        if *width > 0 {
            println!("Depth {}: {} nodes", depth, width);
        }
    }
}

#[test]
fn all_solutions_of_solved_board_is_itself() {
    let puzzle = Sudoku::from_string(
        "534678912672195348198342567859761423426853791713924856961537284287419635345286179",
    )
    .unwrap();
    let (solutions, stats) = find_all_solutions(&puzzle);
    assert_eq!(solutions.len(), 1);
    assert_eq!(stats.solutions_found, 1);
    assert_eq!(stats.nodes_explored, 0);
    assert_eq!(solutions[0].to_string(), puzzle.to_string());
}

use vstd::prelude::*;
use crate::board::{empty_board, grid_view, is_complete_grid, is_full, no_conflicts, solvable, solves};
use crate::laws::law_empty_board_solvable;
use crate::order::{cell_order_for, cross_order, is_index_perm, lemma_cross_is_cell_order, row_major_order};
use crate::search::{
    is_cell_order, lemma_nat_sum_entry, lex_before, lists_from, nat_sum, run_search, search_facts, search_outcome,
    stats_match,
};
use crate::stats::width_sum;
use crate::sudoku::Sudoku;
use crate::timing::{clock_now, time_since};

pub use crate::board::is_safe;
pub use crate::order::{
    generate_cell_order_from_row_col, is_index_permutation, is_valid_cell_order, SearchStrategy,
};
pub use crate::stats::SolverStats;

verus! {

/// The result of a first-solution search on puzzle `p` along `order`: the
/// first solution the search records, if any, and its counters.
pub open spec fn one_solution_result(
    p: Seq<Seq<u8>>,
    order: Seq<(usize, usize)>,
    r: (Option<Sudoku>, SolverStats),
) -> bool {
    let m = search_outcome(p, order, false);
    &&& (r.0 is Some <==> m.sols.len() > 0)
    &&& r.0 is Some ==> r.0->Some_0.wf() && r.0->Some_0.board() == m.sols[0]
    &&& stats_match(r.1, m.tally)
    &&& r.1.solutions_found == if m.sols.len() > 0 {
        1usize
    } else {
        0usize
    }
}

/// The result of an all-solutions search on puzzle `p` along `order`: every
/// solution in the order found, and the counters.
pub open spec fn all_solutions_result(
    p: Seq<Seq<u8>>,
    order: Seq<(usize, usize)>,
    r: (Vec<Sudoku>, SolverStats),
) -> bool {
    let m = search_outcome(p, order, true);
    &&& r.0@.len() == m.sols.len()
    &&& forall|n: int| 0 <= n < m.sols.len() ==> (#[trigger] r.0@[n]).wf() && r.0@[n].board() == m.sols[n]
    &&& stats_match(r.1, m.tally)
    &&& r.1.solutions_found == m.sols.len()
}

/// Every completed grid that solves `p` stands among the solutions handed back.
pub open spec fn all_solutions_complete(p: Seq<Seq<u8>>, r: (Vec<Sudoku>, SolverStats)) -> bool {
    forall|g: Seq<Seq<u8>>|
        #[trigger] solves(g, p) ==> exists|n: int| 0 <= n < r.0@.len() && (#[trigger] r.0@[n]).board() == g
}

/// The solution handed back is the least completed grid of `p` along
/// `order`: every completed grid that solves `p` is it or comes after it.
pub open spec fn first_is_least(p: Seq<Seq<u8>>, order: Seq<(usize, usize)>, r: (Option<Sudoku>, SolverStats)) -> bool {
    forall|g: Seq<Seq<u8>>|
        #[trigger] solves(g, p) ==> r.0 is Some && (r.0->Some_0.board() == g || lex_before(
            order,
            r.0->Some_0.board(),
            g,
        ))
}

/// The solutions handed back come in increasing order along `order`: each
/// comes before the next at the first cell where they differ.
pub open spec fn solutions_ascending(order: Seq<(usize, usize)>, r: (Vec<Sudoku>, SolverStats)) -> bool {
    forall|n1: int, n2: int|
        0 <= n1 < n2 < r.0@.len() ==> lex_before(order, (#[trigger] r.0@[n1]).board(), (#[trigger] r.0@[n2]).board())
}

/// What holds of every search's counters: the width histogram accounts for
/// every decision node (unless the node count reached the largest machine
/// word), no decision node lies deeper than depth 80, and a puzzle with every
/// cell filled takes no decision node.
pub open spec fn counters_sound(p: Seq<Seq<u8>>, s: SolverStats) -> bool {
    &&& s.nodes_explored < usize::MAX ==> s.width_total() == s.nodes_explored
    &&& s.max_recursion_depth <= 80
    &&& is_full(p) ==> s.nodes_explored == 0
}

/// What holds of every first-solution search: a solvable puzzle yields a
/// solution; with clues free of conflicts, the solution solves the puzzle; a
/// board without clues always yields a completed grid.
pub open spec fn one_solution_sound(p: Seq<Seq<u8>>, r: (Option<Sudoku>, SolverStats)) -> bool {
    &&& solvable(p) ==> r.0 is Some
    &&& no_conflicts(p) && r.0 is Some ==> solves(r.0->Some_0.board(), p)
    &&& p == empty_board() ==> r.0 is Some && is_complete_grid(r.0->Some_0.board())
    &&& counters_sound(p, r.1)
}

/// The same counters, but for the time taken.
pub open spec fn same_counters(a: SolverStats, b: SolverStats) -> bool {
    &&& a.solutions_found == b.solutions_found
    &&& a.max_recursion_depth == b.max_recursion_depth
    &&& a.nodes_explored == b.nodes_explored
    &&& a.backtracks == b.backtracks
    &&& a.leaves == b.leaves
    &&& a.tree_width_by_level@ == b.tree_width_by_level@
}

proof fn lemma_width_sum_matches(w: Seq<usize>, t: Seq<nat>, n: int)
    requires
        0 <= n <= w.len(),
        n <= t.len(),
        forall|d: int| 0 <= d < n ==> w[d] as nat == #[trigger] t[d],
    ensures
        width_sum(w, n) == nat_sum(t, n),
    decreases n,
{
    if n > 0 {
        lemma_width_sum_matches(w, t, n - 1);
    }
}

/// Counters held in machine words keep the histogram law of the unbounded ones.
proof fn lemma_counters_sound(p: Seq<Seq<u8>>, order: Seq<(usize, usize)>, find_all: bool, s: SolverStats)
    requires
        stats_match(s, search_outcome(p, order, find_all).tally),
        search_facts(p, order, find_all),
    ensures
        counters_sound(p, s),
{
    let t = search_outcome(p, order, find_all).tally;
    if s.nodes_explored < usize::MAX {
        assert forall|d: int| 0 <= d < 81 implies s.tree_width_by_level@[d] as nat == #[trigger] t.widths[d] by {
            lemma_nat_sum_entry(t.widths, d, 81);
        }
        lemma_width_sum_matches(s.tree_width_by_level@, t.widths, 81);
    }
}

/// A first-solution search along `order`.
fn find_one_along(sudoku: &Sudoku, cell_order: &Vec<(usize, usize)>) -> (r: (Option<Sudoku>, SolverStats))
    requires
        sudoku.wf(),
        is_cell_order(cell_order@),
    ensures
        one_solution_result(sudoku.board(), cell_order@, r),
        one_solution_sound(sudoku.board(), r),
        first_is_least(sudoku.board(), cell_order@, r),
{
    let start_time = clock_now();
    let (solutions, mut stats) = run_search(sudoku, cell_order, false);
    let ghost m = search_outcome(sudoku.board(), cell_order@, false);
    let solution = if solutions.len() > 0 {
        proof {
            assert(m.sols[0] == grid_view(solutions@[0]));
        }
        Some(Sudoku::from_board(&solutions[0]))
    } else {
        None
    };
    stats.solutions_found = if solution.is_some() {
        1
    } else {
        0
    };
    stats.search_duration = time_since(&start_time);
    proof {
        lemma_counters_sound(sudoku.board(), cell_order@, false, stats);
        law_empty_board_solvable();
        assert forall|g: Seq<Seq<u8>>| #[trigger] solves(g, sudoku.board()) implies solution is Some && (
        solution->Some_0.board() == g || lex_before(cell_order@, solution->Some_0.board(), g)) by {
            assert(m.sols[0] == solution->Some_0.board() || !(0 < m.sols.len()));
        }
        if sudoku.board() == empty_board() {
            assert(no_conflicts(empty_board()));
        }
    }
    (solution, stats)
}

/// A search along `order` for every solution.
fn find_all_along(sudoku: &Sudoku, cell_order: &Vec<(usize, usize)>) -> (r: (Vec<Sudoku>, SolverStats))
    requires
        sudoku.wf(),
        is_cell_order(cell_order@),
    ensures
        all_solutions_result(sudoku.board(), cell_order@, r),
        solvable(sudoku.board()) ==> r.0@.len() > 0,
        no_conflicts(sudoku.board()) ==> forall|n: int|
            0 <= n < r.0@.len() ==> solves((#[trigger] r.0@[n]).board(), sudoku.board()),
        solutions_ascending(cell_order@, r),
        all_solutions_complete(sudoku.board(), r),
        forall|g1: Seq<Seq<u8>>, g2: Seq<Seq<u8>>|
            #[trigger] solves(g1, sudoku.board()) && #[trigger] solves(g2, sudoku.board()) && g1 != g2
                ==> r.0@.len() >= 2,
        counters_sound(sudoku.board(), r.1),
{
    let start_time = clock_now();
    let (boards, mut stats) = run_search(sudoku, cell_order, true);
    let ghost m = search_outcome(sudoku.board(), cell_order@, true);
    let mut solutions: Vec<Sudoku> = Vec::new();
    let mut k: usize = 0;
    while k < boards.len()
        invariant
            0 <= k <= boards@.len(),
            boards@.map_values(|g: [[u8; 9]; 9]| grid_view(g)) == m.sols,
            forall|n: int| 0 <= n < boards@.len() ==> crate::search::board_entries_ok(#[trigger] boards@[n]),
            solutions@.len() == k,
            forall|n: int| 0 <= n < k ==> (#[trigger] solutions@[n]).wf() && solutions@[n].board() == m.sols[n],
        decreases boards@.len() - k,
    {
        proof {
            assert(m.sols[k as int] == grid_view(boards@[k as int]));
            assert(crate::search::board_entries_ok(boards@[k as int]));
        }
        solutions.push(Sudoku::from_board(&boards[k]));
        k += 1;
    }
    stats.solutions_found = solutions.len();
    stats.search_duration = time_since(&start_time);
    proof {
        lemma_counters_sound(sudoku.board(), cell_order@, true, stats);
        assert forall|g: Seq<Seq<u8>>| #[trigger] solves(g, sudoku.board()) implies exists|n: int|
            0 <= n < solutions@.len() && (#[trigger] solutions@[n]).board() == g by {
            assert(lists_from(m.sols, 0, g));
            let n = choose|n: int| 0 <= n < m.sols.len() && #[trigger] m.sols[n] == g;
            assert(solutions@[n].board() == g);
        }
        assert forall|n1: int, n2: int| 0 <= n1 < n2 < solutions@.len() implies lex_before(
            cell_order@,
            (#[trigger] solutions@[n1]).board(),
            (#[trigger] solutions@[n2]).board(),
        ) by {
            assert(lex_before(cell_order@, m.sols[n1], m.sols[n2]));
        }
        assert forall|g1: Seq<Seq<u8>>, g2: Seq<Seq<u8>>|
            #[trigger] solves(g1, sudoku.board()) && #[trigger] solves(g2, sudoku.board()) && g1 != g2
                implies solutions@.len() >= 2 by {
            assert(lists_from(m.sols, 0, g1));
            assert(lists_from(m.sols, 0, g2));
            let n1 = choose|n: int| 0 <= n < m.sols.len() && #[trigger] m.sols[n] == g1;
            let n2 = choose|n: int| 0 <= n < m.sols.len() && #[trigger] m.sols[n] == g2;
            assert(n1 != n2);
        }
    }
    (solutions, stats)
}

/// The first solution along the cells row by row, left to right.
pub fn find_one_solution(sudoku: &Sudoku) -> (r: (Option<Sudoku>, SolverStats))
    requires
        sudoku.wf(),
    ensures
        one_solution_result(sudoku.board(), row_major_order(), r),
        one_solution_sound(sudoku.board(), r),
        first_is_least(sudoku.board(), row_major_order(), r),
{
    let order = cell_order_for(&SearchStrategy::Default);
    find_one_along(sudoku, &order)
}

/// The first solution, with rows and columns each visited in a random order.
pub fn find_one_solution_rand_rowcol_order(sudoku: &Sudoku) -> (r: (Option<Sudoku>, SolverStats))
    requires
        sudoku.wf(),
    ensures
        exists|rows: Seq<usize>, cols: Seq<usize>|
            is_index_perm(rows) && is_index_perm(cols) && #[trigger] one_solution_result(
                sudoku.board(),
                cross_order(rows, cols),
                r,
            ) && first_is_least(sudoku.board(), cross_order(rows, cols), r),
        one_solution_sound(sudoku.board(), r),
{
    let strategy = SearchStrategy::RowColRandom;
    let order = cell_order_for(&strategy);
    let r = find_one_along(sudoku, &order);
    proof {
        let (rows, cols) = choose|rows: Seq<usize>, cols: Seq<usize>|
            is_index_perm(rows) && is_index_perm(cols) && order@ == #[trigger] cross_order(rows, cols);
        assert(one_solution_result(sudoku.board(), cross_order(rows, cols), r));
        assert(first_is_least(sudoku.board(), cross_order(rows, cols), r));
    }
    r
}

/// The first solution, with the cells visited in a random order.
pub fn find_one_solution_rand_cell_order(sudoku: &Sudoku) -> (r: (Option<Sudoku>, SolverStats))
    requires
        sudoku.wf(),
    ensures
        exists|order: Seq<(usize, usize)>|
            is_cell_order(order) && #[trigger] one_solution_result(sudoku.board(), order, r)
                && first_is_least(sudoku.board(), order, r),
        one_solution_sound(sudoku.board(), r),
{
    let order = cell_order_for(&SearchStrategy::CellRandom);
    let r = find_one_along(sudoku, &order);
    proof {
        assert(one_solution_result(sudoku.board(), order@, r));
    }
    r
}

/// The first solution, with rows and columns visited in the given orders.
pub fn find_one_solution_custom_rowcol_order(sudoku: &Sudoku, row_order: [usize; 9], col_order: [usize; 9]) -> (r: (
    Option<Sudoku>,
    SolverStats,
))
    requires
        sudoku.wf(),
        is_index_perm(row_order@),
        is_index_perm(col_order@),
    ensures
        one_solution_result(sudoku.board(), cross_order(row_order@, col_order@), r),
        one_solution_sound(sudoku.board(), r),
        first_is_least(sudoku.board(), cross_order(row_order@, col_order@), r),
{
    proof {
        lemma_cross_is_cell_order(row_order@, col_order@);
    }
    let order = generate_cell_order_from_row_col(&row_order, &col_order);
    find_one_along(sudoku, &order)
}

/// The first solution, with the cells visited in the given order.
pub fn find_one_solution_custom_cell_order(sudoku: &Sudoku, cell_order: &[(usize, usize)]) -> (r: (
    Option<Sudoku>,
    SolverStats,
))
    requires
        sudoku.wf(),
        is_cell_order(cell_order@),
    ensures
        one_solution_result(sudoku.board(), cell_order@, r),
        one_solution_sound(sudoku.board(), r),
        first_is_least(sudoku.board(), cell_order@, r),
{
    let order = vstd::slice::slice_to_vec(cell_order);
    find_one_along(sudoku, &order)
}

/// The first solution along the order that `strategy` gives.
pub fn find_one_solution_strategy(sudoku: &Sudoku, strategy: SearchStrategy) -> (r: (
    Option<Sudoku>,
    SolverStats,
))
    requires
        sudoku.wf(),
        strategy.well_formed(),
    ensures
        exists|order: Seq<(usize, usize)>|
            strategy.allows(order) && is_cell_order(order) && #[trigger] one_solution_result(
                sudoku.board(),
                order,
                r,
            ) && first_is_least(sudoku.board(), order, r),
        one_solution_sound(sudoku.board(), r),
{
    let order = cell_order_for(&strategy);
    let r = find_one_along(sudoku, &order);
    proof {
        assert(one_solution_result(sudoku.board(), order@, r));
    }
    r
}

/// Every solution, in the order that the search along the cells row by row
/// finds them.
pub fn find_all_solutions(sudoku: &Sudoku) -> (r: (Vec<Sudoku>, SolverStats))
    requires
        sudoku.wf(),
    ensures
        all_solutions_result(sudoku.board(), row_major_order(), r),
        solvable(sudoku.board()) ==> r.0@.len() > 0,
        no_conflicts(sudoku.board()) ==> forall|n: int|
            0 <= n < r.0@.len() ==> solves((#[trigger] r.0@[n]).board(), sudoku.board()),
        solutions_ascending(row_major_order(), r),
        all_solutions_complete(sudoku.board(), r),
        forall|g1: Seq<Seq<u8>>, g2: Seq<Seq<u8>>|
            #[trigger] solves(g1, sudoku.board()) && #[trigger] solves(g2, sudoku.board()) && g1 != g2
                ==> r.0@.len() >= 2,
        counters_sound(sudoku.board(), r.1),
{
    let order = cell_order_for(&SearchStrategy::Default);
    find_all_along(sudoku, &order)
}

} // verus!

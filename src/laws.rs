use vstd::prelude::*;
use crate::bf_solver::{all_solutions_result, one_solution_result, same_counters};
use crate::board::{empty_board, extends, is_complete_grid, is_grid, no_conflicts, peers, solvable, solves};
use crate::search::{explore, search_outcome, start, try_digits, SearchState};
use crate::stats::SolverStats;
use crate::sudoku::Sudoku;

verus! {

/// A completed grid built by shifting each row: row `r` starts at
/// `3 * (r % 3) + r / 3` and counts up modulo 9.
pub open spec fn shifted_grid() -> Seq<Seq<u8>> {
    Seq::new(9, |r: int| Seq::new(9, |c: int| ((3 * (r % 3) + r / 3 + c) % 9 + 1) as u8))
}

proof fn lemma_shifted_entry(r1: int, c1: int, r2: int, c2: int)
    requires
        0 <= r1 < 9,
        0 <= c1 < 9,
        0 <= r2 < 9,
        0 <= c2 < 9,
        peers(r1, c1, r2, c2),
    ensures
        (3 * (r1 % 3) + r1 / 3 + c1) % 9 != (3 * (r2 % 3) + r2 / 3 + c2) % 9,
{
    if r1 == r2 {
    } else if c1 == c2 {
    } else {
        assert(r1 / 3 == r2 / 3 && c1 / 3 == c2 / 3);
    }
}

/// The empty board can be completed: the search has a solution to find.
pub proof fn law_empty_board_solvable()
    ensures
        solvable(empty_board()),
{
    let g = shifted_grid();
    assert(is_grid(g));
    assert forall|r: int, c: int| 0 <= r < 9 && 0 <= c < 9 implies 1 <= #[trigger] g[r][c] <= 9 by {}
    assert forall|r1: int, c1: int, r2: int, c2: int|
        0 <= r1 < 9 && 0 <= c1 < 9 && 0 <= r2 < 9 && 0 <= c2 < 9 && peers(r1, c1, r2, c2)
            && #[trigger] g[r1][c1] != 0 implies g[r1][c1] != #[trigger] g[r2][c2] by {
        lemma_shifted_entry(r1, c1, r2, c2);
    }
    assert(no_conflicts(g));
    assert(is_complete_grid(g));
    assert(extends(g, empty_board()));
    assert(solves(g, empty_board()));
}

proof fn lemma_explore_grows(
    s: SearchState,
    order: Seq<(usize, usize)>,
    idx: int,
    depth: nat,
    find_all: bool,
)
    ensures
        explore(s, order, idx, depth, find_all).tally.nodes >= s.tally.nodes,
    decreases 81 - idx, 10int,
{
    if idx < 0 || idx >= 81 {
    } else if s.board[order[idx].0 as int][order[idx].1 as int] != 0 {
        lemma_explore_grows(s, order, idx + 1, depth, find_all);
    } else {
        lemma_try_grows(
            SearchState { tally: crate::search::enter_node(s.tally, depth), ..s },
            order,
            idx,
            depth,
            1,
            false,
            find_all,
        );
    }
}

proof fn lemma_try_grows(
    s: SearchState,
    order: Seq<(usize, usize)>,
    k: int,
    depth: nat,
    num: int,
    any: bool,
    find_all: bool,
)
    ensures
        try_digits(s, order, k, depth, num, any, find_all).tally.nodes >= s.tally.nodes,
    decreases 81 - k, 10 - num,
{
    if k < 0 || k >= 81 || num < 1 || num > 9 {
    } else {
        let i = order[k].0 as int;
        let j = order[k].1 as int;
        if crate::board::digit_free(s.board, i, j, num as u8) {
            let placed = SearchState { board: crate::board::put(s.board, i, j, num as u8), ..s };
            lemma_explore_grows(placed, order, k + 1, depth + 1, find_all);
            let after = explore(placed, order, k + 1, depth + 1, find_all);
            if !find_all && after.sols.len() > 0 {
            } else {
                let back = SearchState {
                    board: crate::board::put(after.board, i, j, 0),
                    tally: crate::search::add_backtrack(after.tally),
                    ..after
                };
                lemma_try_grows(back, order, k, depth, num + 1, true, find_all);
            }
        } else {
            lemma_try_grows(s, order, k, depth, num + 1, any, find_all);
        }
    }
}

proof fn lemma_explore_first_vs_all(s: SearchState, order: Seq<(usize, usize)>, idx: int, depth: nat)
    requires
        s.sols.len() == 0,
    ensures
        explore(s, order, idx, depth, false).tally.nodes <= explore(s, order, idx, depth, true).tally.nodes,
        explore(s, order, idx, depth, false).sols.len() == 0 ==> explore(s, order, idx, depth, false)
            == explore(s, order, idx, depth, true),
    decreases 81 - idx, 10int,
{
    if idx < 0 || idx >= 81 {
    } else if s.board[order[idx].0 as int][order[idx].1 as int] != 0 {
        lemma_explore_first_vs_all(s, order, idx + 1, depth);
    } else {
        lemma_try_first_vs_all(
            SearchState { tally: crate::search::enter_node(s.tally, depth), ..s },
            order,
            idx,
            depth,
            1,
            false,
        );
    }
}

proof fn lemma_try_first_vs_all(
    s: SearchState,
    order: Seq<(usize, usize)>,
    k: int,
    depth: nat,
    num: int,
    any: bool,
)
    requires
        s.sols.len() == 0,
    ensures
        try_digits(s, order, k, depth, num, any, false).tally.nodes <= try_digits(
            s,
            order,
            k,
            depth,
            num,
            any,
            true,
        ).tally.nodes,
        try_digits(s, order, k, depth, num, any, false).sols.len() == 0 ==> try_digits(
            s,
            order,
            k,
            depth,
            num,
            any,
            false,
        ) == try_digits(s, order, k, depth, num, any, true),
    decreases 81 - k, 10 - num,
{
    if k < 0 || k >= 81 || num < 1 || num > 9 {
    } else {
        let i = order[k].0 as int;
        let j = order[k].1 as int;
        if crate::board::digit_free(s.board, i, j, num as u8) {
            let placed = SearchState { board: crate::board::put(s.board, i, j, num as u8), ..s };
            lemma_explore_first_vs_all(placed, order, k + 1, depth + 1);
            let a1 = explore(placed, order, k + 1, depth + 1, false);
            let b1 = explore(placed, order, k + 1, depth + 1, true);
            let back_b = SearchState {
                board: crate::board::put(b1.board, i, j, 0),
                tally: crate::search::add_backtrack(b1.tally),
                ..b1
            };
            if a1.sols.len() > 0 {
                lemma_try_grows(back_b, order, k, depth, num + 1, true, true);
            } else {
                assert(a1 == b1);
                lemma_try_first_vs_all(back_b, order, k, depth, num + 1, true);
            }
        } else {
            lemma_try_first_vs_all(s, order, k, depth, num + 1, any);
        }
    }
}

/// Stopping at the first solution never takes more decision nodes than the
/// exhaustive search of the same puzzle along the same order; where the
/// first-solution search finds nothing, the two searches are one and the same.
pub proof fn law_early_stop_explores_less(p: Seq<Seq<u8>>, order: Seq<(usize, usize)>)
    ensures
        search_outcome(p, order, false).tally.nodes <= search_outcome(p, order, true).tally.nodes,
        search_outcome(p, order, false).sols.len() == 0 ==> search_outcome(p, order, false)
            == search_outcome(p, order, true),
{
    lemma_explore_first_vs_all(start(p), order, 0, 0);
}

/// The same, of the counters that the two searches hand back.
pub proof fn law_first_solution_counts_fewer_nodes(
    p: Seq<Seq<u8>>,
    order: Seq<(usize, usize)>,
    one: (Option<Sudoku>, SolverStats),
    all: (Vec<Sudoku>, SolverStats),
)
    requires
        one_solution_result(p, order, one),
        all_solutions_result(p, order, all),
    ensures
        one.1.nodes_explored <= all.1.nodes_explored,
{
    law_early_stop_explores_less(p, order);
}

/// Searching the same puzzle along the same order twice gives the same
/// solution and the same counters.
pub proof fn law_search_repeatable(
    p: Seq<Seq<u8>>,
    order: Seq<(usize, usize)>,
    a: (Option<Sudoku>, SolverStats),
    b: (Option<Sudoku>, SolverStats),
)
    requires
        one_solution_result(p, order, a),
        one_solution_result(p, order, b),
    ensures
        a.0 is Some <==> b.0 is Some,
        a.0 is Some ==> a.0->Some_0.board() == b.0->Some_0.board(),
        same_counters(a.1, b.1),
{
    assert(a.1.tree_width_by_level@ =~= b.1.tree_width_by_level@);
}

} // verus!

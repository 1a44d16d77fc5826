use vstd::prelude::*;
use crate::board::{
    box_has, box_index, box_of, col_has, digit_bit, digit_free, entries_in_range, extends,
    grid_view, has_digit, is_full, mask_clean, is_grid, is_safe, lemma_bit_empty, lemma_place_masks,
    lemma_masks_determined, lemma_unplace_masks, masks_match, no_conflicts, peers, put, row_has, solvable, solves,
};
use crate::stats::SolverStats;
use crate::sudoku::Sudoku;

verus! {

/// Counters of the search tree, without bound.
pub struct Tally {
    pub nodes: nat,
    pub leaves: nat,
    pub backtracks: nat,
    pub max_depth: nat,
    pub widths: Seq<nat>,
}

/// What the search has in hand: the board it works on, its counters, and the
/// completed boards it has recorded, in the order found.
pub struct SearchState {
    pub board: Seq<Seq<u8>>,
    pub tally: Tally,
    pub sols: Seq<Seq<Seq<u8>>>,
}

/// Counters before the search starts.
pub open spec fn empty_tally() -> Tally {
    Tally { nodes: 0, leaves: 0, backtracks: 0, max_depth: 0, widths: Seq::new(81, |d: int| 0nat) }
}

/// The state the search starts from on puzzle `p`.
pub open spec fn start(p: Seq<Seq<u8>>) -> SearchState {
    SearchState { board: p, tally: empty_tally(), sols: Seq::empty() }
}

/// Counters after one more decision node at depth `depth`.
pub open spec fn enter_node(t: Tally, depth: nat) -> Tally {
    Tally {
        nodes: t.nodes + 1,
        max_depth: if depth > t.max_depth {
            depth
        } else {
            t.max_depth
        },
        widths: t.widths.update(depth as int, t.widths[depth as int] + 1),
        ..t
    }
}

/// Counters after one more leaf.
pub open spec fn add_leaf(t: Tally) -> Tally {
    Tally { leaves: t.leaves + 1, ..t }
}

/// Counters after one more placement undone.
pub open spec fn add_backtrack(t: Tally) -> Tally {
    Tally { backtracks: t.backtracks + 1, ..t }
}

/// The cell order has 81 entries, each a cell of the 9x9 board.
pub open spec fn cells_in_range(order: Seq<(usize, usize)>) -> bool {
    &&& order.len() == 81
    &&& forall|k: int| 0 <= k < 81 ==> (#[trigger] order[k]).0 < 9 && order[k].1 < 9
}

/// The depth-first search from position `idx` of the cell order, `depth`
/// digits having been placed on the way there. Filled cells are passed over;
/// past the last position the board is recorded as a solution (a leaf); an
/// empty cell is a decision node, where the digits are tried in turn.
pub open spec fn explore(
    s: SearchState,
    order: Seq<(usize, usize)>,
    idx: int,
    depth: nat,
    find_all: bool,
) -> SearchState
    decreases 81 - idx, 10int,
{
    if idx < 0 || idx >= 81 {
        SearchState { tally: add_leaf(s.tally), sols: s.sols.push(s.board), ..s }
    } else if s.board[order[idx].0 as int][order[idx].1 as int] != 0 {
        explore(s, order, idx + 1, depth, find_all)
    } else {
        try_digits(
            SearchState { tally: enter_node(s.tally, depth), ..s },
            order,
            idx,
            depth,
            1,
            false,
            find_all,
        )
    }
}

/// The digits `num`..9 tried in turn at the decision node at position `k`.
/// Each digit free of the cell's peers is placed and searched below; unless the
/// search stops at its first solution and has one, the digit is then taken back
/// (a backtrack). A node where no digit was free is a dead-end leaf.
pub open spec fn try_digits(
    s: SearchState,
    order: Seq<(usize, usize)>,
    k: int,
    depth: nat,
    num: int,
    any: bool,
    find_all: bool,
) -> SearchState
    decreases 81 - k, 10 - num,
{
    if k < 0 || k >= 81 || num < 1 || num > 9 {
        if any {
            s
        } else {
            SearchState { tally: add_leaf(s.tally), ..s }
        }
    } else {
        let i = order[k].0 as int;
        let j = order[k].1 as int;
        if digit_free(s.board, i, j, num as u8) {
            let after = explore(
                SearchState { board: put(s.board, i, j, num as u8), ..s },
                order,
                k + 1,
                depth + 1,
                find_all,
            );
            if !find_all && after.sols.len() > 0 {
                after
            } else {
                try_digits(
                    SearchState {
                        board: put(after.board, i, j, 0),
                        tally: add_backtrack(after.tally),
                        ..after
                    },
                    order,
                    k,
                    depth,
                    num + 1,
                    true,
                    find_all,
                )
            }
        } else {
            try_digits(s, order, k, depth, num + 1, any, find_all)
        }
    }
}

/// The whole search on puzzle `p` along `order`.
pub open spec fn search_outcome(p: Seq<Seq<u8>>, order: Seq<(usize, usize)>, find_all: bool) -> SearchState {
    explore(start(p), order, 0, 0, find_all)
}

/// Every cell of the 9x9 board stands somewhere in the order, whose 81
/// entries are all cells of the board: the order is a permutation of the cells.
pub open spec fn is_cell_order(order: Seq<(usize, usize)>) -> bool {
    &&& cells_in_range(order)
    &&& forall|r: int, c: int| 0 <= r < 9 && 0 <= c < 9 ==> #[trigger] covers(order, r, c)
}

/// The cell at row `r`, column `c` stands somewhere in the order.
pub open spec fn covers(order: Seq<(usize, usize)>, r: int, c: int) -> bool {
    exists|k: int| 0 <= k < order.len() && #[trigger] order[k] == (r as usize, c as usize)
}

/// Sum of the first `n` entries of `w`.
pub open spec fn nat_sum(w: Seq<nat>, n: int) -> nat
    decreases n,
{
    if n <= 0 {
        0
    } else {
        nat_sum(w, n - 1) + w[n - 1]
    }
}

/// Raising one entry by one raises the sum by one.
pub proof fn lemma_nat_sum_bump(w: Seq<nat>, d: int, n: int)
    requires
        0 <= d < w.len(),
        0 <= n <= w.len(),
    ensures
        nat_sum(w.update(d, w[d] + 1), n) == nat_sum(w, n) + if d < n {
            1nat
        } else {
            0nat
        },
    decreases n,
{
    if n > 0 {
        lemma_nat_sum_bump(w, d, n - 1);
    }
}

/// Every entry is at most the sum.
pub proof fn lemma_nat_sum_entry(w: Seq<nat>, d: int, n: int)
    requires
        0 <= d < n <= w.len(),
    ensures
        w[d] <= nat_sum(w, n),
    decreases n,
{
    if d < n - 1 {
        lemma_nat_sum_entry(w, d, n - 1);
    }
}

/// A count held in a machine word: it stops at the largest value.
pub open spec fn clamp(n: nat) -> usize {
    if n < usize::MAX {
        n as usize
    } else {
        usize::MAX
    }
}

/// The statistics hold the counters `t`, each stopped at the largest machine word.
pub open spec fn stats_match(s: SolverStats, t: Tally) -> bool {
    &&& s.nodes_explored == clamp(t.nodes)
    &&& s.leaves == clamp(t.leaves)
    &&& s.backtracks == clamp(t.backtracks)
    &&& s.max_recursion_depth as nat == t.max_depth
    &&& t.widths.len() == 81
    &&& forall|d: int| 0 <= d < 81 ==> #[trigger] s.tree_width_by_level[d] == clamp(t.widths[d])
}

fn saturating_inc(x: usize) -> (r: usize)
    ensures
        forall|n: nat| x == #[trigger] clamp(n) ==> r == clamp(n + 1),
{
    if x < usize::MAX {
        x + 1
    } else {
        x
    }
}

pub proof fn lemma_grid_view(a: [[u8; 9]; 9])
    ensures
        is_grid(grid_view(a)),
        forall|r: int, c: int| 0 <= r < 9 && 0 <= c < 9 ==> #[trigger] grid_view(a)[r][c] == a[r][c],
{
}

proof fn lemma_grid_write(a: [[u8; 9]; 9], b: [[u8; 9]; 9], i: int, j: int, v: u8)
    requires
        0 <= i < 9,
        0 <= j < 9,
        b[i][j] == v,
        forall|r: int, c: int|
            0 <= r < 9 && 0 <= c < 9 && (r != i || c != j) ==> #[trigger] b[r][c] == a[r][c],
    ensures
        grid_view(b) == put(grid_view(a), i, j, v),
{
    let ga = grid_view(a);
    let gb = grid_view(b);
    let p = put(ga, i, j, v);
    assert forall|r: int| 0 <= r < 9 implies #[trigger] gb[r] =~= p[r] by {
        assert(gb[r].len() == 9);
        assert(p[r].len() == 9);
        assert forall|c: int| 0 <= c < 9 implies gb[r][c] == p[r][c] by {
            assert(gb[r][c] == b[r][c]);
        }
    }
    assert(gb =~= p);
}

proof fn lemma_put_back(b: Seq<Seq<u8>>, i: int, j: int, d: u8)
    requires
        is_grid(b),
        0 <= i < 9,
        0 <= j < 9,
        b[i][j] == 0,
    ensures
        put(put(b, i, j, d), i, j, 0) == b,
{
    assert(put(b, i, j, d)[i].update(j, 0) =~= b[i]);
    assert(put(put(b, i, j, d), i, j, 0) =~= b);
}

/// A completed grid that keeps the filled cells of `b` leaves its own digit
/// free at an empty cell of `b`, and keeps `b` with that digit placed.
proof fn lemma_solution_digit_free(g: Seq<Seq<u8>>, b: Seq<Seq<u8>>, i: int, j: int)
    requires
        solves(g, b),
        is_grid(b),
        0 <= i < 9,
        0 <= j < 9,
        b[i][j] == 0,
    ensures
        digit_free(b, i, j, g[i][j]),
        solves(g, put(b, i, j, g[i][j])),
{
    let d = g[i][j];
    if row_has(b, i, d) {
        let c = choose|c: int| 0 <= c < 9 && #[trigger] b[i][c] == d;
        assert(peers(i, j, i, c));
        assert(g[i][c] == d);
    }
    if col_has(b, j, d) {
        let r = choose|r: int| 0 <= r < 9 && #[trigger] b[r][j] == d;
        assert(peers(i, j, r, j));
        assert(g[r][j] == d);
    }
    if box_has(b, box_of(i, j), d) {
        let (r, c) = choose|r: int, c: int|
            0 <= r < 9 && 0 <= c < 9 && box_of(r, c) == box_of(i, j) && #[trigger] b[r][c] == d;
        assert(peers(i, j, r, c));
        assert(g[r][c] == d);
    }
    let nb = put(b, i, j, d);
    assert forall|r: int, c: int| 0 <= r < 9 && 0 <= c < 9 && #[trigger] nb[r][c] != 0 implies g[r][c]
        == nb[r][c] by {
        if r != i || c != j {
            assert(nb[r][c] == b[r][c]);
        }
    }
}

/// Placing a digit free of its peers in an empty cell keeps a board free of conflicts.
proof fn lemma_place_no_conflicts(b: Seq<Seq<u8>>, i: int, j: int, d: u8)
    requires
        is_grid(b),
        no_conflicts(b),
        0 <= i < 9,
        0 <= j < 9,
        b[i][j] == 0,
        1 <= d <= 9,
        digit_free(b, i, j, d),
    ensures
        no_conflicts(put(b, i, j, d)),
        extends(put(b, i, j, d), b),
{
    let nb = put(b, i, j, d);
    assert forall|r: int, c: int| 0 <= r < 9 && 0 <= c < 9 implies #[trigger] nb[r][c] == (if r == i
        && c == j {
        d
    } else {
        b[r][c]
    }) by {}
    assert forall|r1: int, c1: int, r2: int, c2: int|
        0 <= r1 < 9 && 0 <= c1 < 9 && 0 <= r2 < 9 && 0 <= c2 < 9 && peers(r1, c1, r2, c2)
            && #[trigger] nb[r1][c1] != 0 implies nb[r1][c1] != #[trigger] nb[r2][c2] by {
        if r1 == i && c1 == j {
            if r2 == i {
                assert(b[i][c2] == nb[r2][c2]);
            } else if c2 == j {
                assert(b[r2][j] == nb[r2][c2]);
            } else {
                assert(b[r2][c2] == nb[r2][c2]);
            }
        } else if r2 == i && c2 == j {
            if r1 == i {
                assert(b[i][c1] == nb[r1][c1]);
            } else if c1 == j {
                assert(b[r1][j] == nb[r1][c1]);
            } else {
                assert(box_of(r1, c1) == box_of(i, j));
                assert(b[r1][c1] == nb[r1][c1]);
            }
        } else {
            assert(b[r1][c1] == nb[r1][c1]);
            assert(b[r2][c2] == nb[r2][c2]);
        }
    }
}

/// Every cell that an order covers in positions before `n` is filled.
pub open spec fn filled_before(b: Seq<Seq<u8>>, order: Seq<(usize, usize)>, n: int) -> bool {
    forall|k: int| 0 <= k < n ==> b[(#[trigger] order[k]).0 as int][order[k].1 as int] != 0
}

/// The solutions recorded from position `from` on are completed grids that keep `b`.
pub open spec fn sound_from(sols: Seq<Seq<Seq<u8>>>, from: int, b: Seq<Seq<u8>>) -> bool {
    forall|n: int| from <= n < sols.len() ==> solves(#[trigger] sols[n], b)
}

/// The digit of `g` at position `k` of the order.
pub open spec fn at_pos(g: Seq<Seq<u8>>, order: Seq<(usize, usize)>, k: int) -> u8 {
    g[order[k].0 as int][order[k].1 as int]
}

/// `g1` comes before `g2` along the order: they agree up to some position,
/// where `g1` has the smaller digit.
pub open spec fn lex_before(order: Seq<(usize, usize)>, g1: Seq<Seq<u8>>, g2: Seq<Seq<u8>>) -> bool {
    exists|k: int|
        0 <= k < 81 && #[trigger] at_pos(g1, order, k) < at_pos(g2, order, k) && forall|m: int|
            0 <= m < k ==> #[trigger] at_pos(g1, order, m) == at_pos(g2, order, m)
}

/// The solutions recorded from position `from` on come in increasing order
/// along the cell order, so no two are alike.
pub open spec fn ascending_from(sols: Seq<Seq<Seq<u8>>>, from: int, order: Seq<(usize, usize)>) -> bool {
    forall|n1: int, n2: int|
        from <= n1 < n2 < sols.len() ==> lex_before(order, #[trigger] sols[n1], #[trigger] sols[n2])
}

/// Every completed grid that keeps `b` finds a solution recorded at position
/// `from`, and that solution is the grid itself or comes before it along the order.
pub open spec fn least_from(
    sols: Seq<Seq<Seq<u8>>>,
    from: int,
    order: Seq<(usize, usize)>,
    b: Seq<Seq<u8>>,
) -> bool {
    forall|g: Seq<Seq<u8>>|
        #[trigger] solves(g, b) ==> from < sols.len() && (sols[from] == g || lex_before(
            order,
            sols[from],
            g,
        ))
}

/// `g` stands among the solutions recorded from position `from` on.
pub open spec fn lists_from(sols: Seq<Seq<Seq<u8>>>, from: int, g: Seq<Seq<u8>>) -> bool {
    exists|n: int| from <= n < sols.len() && #[trigger] sols[n] == g
}

/// A board that keeps every filled cell of `b` keeps those of any board that
/// `b` keeps.
proof fn lemma_extends_trans(g: Seq<Seq<u8>>, b: Seq<Seq<u8>>, a: Seq<Seq<u8>>)
    requires
        extends(g, b),
        extends(b, a),
    ensures
        extends(g, a),
{
    assert forall|r: int, c: int| 0 <= r < 9 && 0 <= c < 9 && #[trigger] a[r][c] != 0 implies g[r][c]
        == a[r][c] by {
        assert(b[r][c] == a[r][c]);
    }
}

/// Writing a digit in an empty cell keeps every filled cell.
proof fn lemma_extends_placed(b: Seq<Seq<u8>>, i: int, j: int, d: u8)
    requires
        is_grid(b),
        0 <= i < 9,
        0 <= j < 9,
        b[i][j] == 0,
    ensures
        extends(put(b, i, j, d), b),
        put(b, i, j, d)[i][j] == d,
{
    let nb = put(b, i, j, d);
    assert forall|r: int, c: int| 0 <= r < 9 && 0 <= c < 9 && #[trigger] b[r][c] != 0 implies nb[r][c]
        == b[r][c] by {
        if r != i || c != j {
            assert(nb[r][c] == b[r][c]);
        }
    }
}

/// A completed grid that keeps every cell of a full board is that board.
proof fn lemma_full_board_unique(g: Seq<Seq<u8>>, b: Seq<Seq<u8>>)
    requires
        is_grid(b),
        is_full(b),
        solves(g, b),
    ensures
        g == b,
{
    assert forall|r: int| 0 <= r < 9 implies #[trigger] g[r] =~= b[r] by {
        assert forall|c: int| 0 <= c < 9 implies g[r][c] == b[r][c] by {
            assert(b[r][c] != 0);
        }
    }
    assert(g =~= b);
}

/// The working state of one search: board, bit-sets, counters and solutions.
struct SearchContext {
    board: [[u8; 9]; 9],
    rows: [u16; 9],
    cols: [u16; 9],
    subgrids: [u16; 9],
    stats: SolverStats,
    solutions: Vec<[[u8; 9]; 9]>,
    tally: Ghost<Tally>,
}

impl SearchContext {
    spec fn view(&self) -> SearchState {
        SearchState {
            board: grid_view(self.board),
            tally: self.tally@,
            sols: self.solutions@.map_values(|g: [[u8; 9]; 9]| grid_view(g)),
        }
    }

    spec fn inv(&self) -> bool {
        &&& masks_match(grid_view(self.board), self.rows@, self.cols@, self.subgrids@)
        &&& stats_match(self.stats, self.tally@)
        &&& self.tally@.max_depth <= 80
        &&& entries_in_range(grid_view(self.board))
        &&& nat_sum(self.tally@.widths, 81) == self.tally@.nodes
        &&& forall|n: int| 0 <= n < self.solutions@.len() ==> entries_in_range(#[trigger] self.view().sols[n])
    }
}

/// The search from position `cell_idx` of the order, with `depth` digits
/// placed so far; it follows `explore` step for step.
fn solve_recursive_cell_order(
    ctx: &mut SearchContext,
    cell_order: &Vec<(usize, usize)>,
    cell_idx: usize,
    depth: usize,
    find_all: bool,
)
    requires
        old(ctx).inv(),
        cells_in_range(cell_order@),
        depth <= cell_idx <= 81,
        !find_all ==> old(ctx).solutions@.len() == 0,
    ensures
        final(ctx).inv(),
        final(ctx).view() == explore(
            old(ctx).view(),
            cell_order@,
            cell_idx as int,
            depth as nat,
            find_all,
        ),
        (find_all || final(ctx).solutions@.len() == 0) ==> grid_view(final(ctx).board)
            == grid_view(old(ctx).board),
        (find_all || final(ctx).solutions@.len() == 0) ==> final(ctx).rows@ == old(ctx).rows@
            && final(ctx).cols@ == old(ctx).cols@ && final(ctx).subgrids@ == old(ctx).subgrids@,
        final(ctx).solutions@.len() >= old(ctx).solutions@.len(),
        find_all && is_cell_order(cell_order@) && filled_before(
            grid_view(old(ctx).board),
            cell_order@,
            cell_idx as int,
        ) ==> forall|g: Seq<Seq<u8>>|
            #[trigger] solves(g, grid_view(old(ctx).board)) ==> lists_from(
                final(ctx).view().sols,
                old(ctx).solutions@.len() as int,
                g,
            ),
        forall|n: int|
            0 <= n < old(ctx).solutions@.len() ==> #[trigger] final(ctx).view().sols[n] == old(
                ctx,
            ).view().sols[n],
        solvable(grid_view(old(ctx).board)) ==> final(ctx).solutions@.len() > old(
            ctx,
        ).solutions@.len(),
        is_cell_order(cell_order@) && no_conflicts(grid_view(old(ctx).board)) && filled_before(
            grid_view(old(ctx).board),
            cell_order@,
            cell_idx as int,
        ) ==> sound_from(
            final(ctx).view().sols,
            old(ctx).solutions@.len() as int,
            grid_view(old(ctx).board),
        ),
        is_full(grid_view(old(ctx).board)) ==> final(ctx).tally@.nodes == old(ctx).tally@.nodes,
        forall|n: int|
            old(ctx).solutions@.len() <= n < final(ctx).solutions@.len() ==> extends(
                #[trigger] final(ctx).view().sols[n],
                grid_view(old(ctx).board),
            ),
        is_cell_order(cell_order@) && filled_before(
            grid_view(old(ctx).board),
            cell_order@,
            cell_idx as int,
        ) ==> least_from(
            final(ctx).view().sols,
            old(ctx).solutions@.len() as int,
            cell_order@,
            grid_view(old(ctx).board),
        ),
        filled_before(grid_view(old(ctx).board), cell_order@, cell_idx as int) ==> ascending_from(
            final(ctx).view().sols,
            old(ctx).solutions@.len() as int,
            cell_order@,
        ),
    decreases 81 - cell_idx,
{
    let ghost s0 = ctx.view();
    let ghost target = explore(s0, cell_order@, cell_idx as int, depth as nat, find_all);
    let ghost entry_len = ctx.solutions@.len() as int;
    proof {
        lemma_grid_view(ctx.board);
    }
    // Pass over the cells that are already filled.
    let mut current_idx: usize = cell_idx;
    while current_idx < 81 && ctx.board[cell_order[current_idx].0][cell_order[current_idx].1] != 0
        invariant
            cell_idx <= current_idx <= 81,
            cells_in_range(cell_order@),
            ctx.view() == s0,
            is_grid(s0.board),
            forall|r: int, c: int| 0 <= r < 9 && 0 <= c < 9 ==> #[trigger] s0.board[r][c] == ctx.board[r][c],
            target == explore(s0, cell_order@, current_idx as int, depth as nat, find_all),
            filled_before(s0.board, cell_order@, cell_idx as int) ==> filled_before(
                s0.board,
                cell_order@,
                current_idx as int,
            ),
        decreases 81 - current_idx,
    {
        current_idx += 1;
    }

    if current_idx == 81 {
        // Every cell is filled: a solution.
        let ghost sols0 = ctx.solutions@;
        ctx.solutions.push(ctx.board);
        ctx.stats.leaves = saturating_inc(ctx.stats.leaves);
        ctx.tally = Ghost(add_leaf(ctx.tally@));
        proof {
            assert(ctx.solutions@.map_values(|g: [[u8; 9]; 9]| grid_view(g)) =~= sols0.map_values(
                |g: [[u8; 9]; 9]| grid_view(g),
            ).push(grid_view(ctx.board)));
            if is_cell_order(cell_order@) && no_conflicts(s0.board) && filled_before(
                s0.board,
                cell_order@,
                cell_idx as int,
            ) {
                lemma_order_fills_board(s0.board, cell_order@);
                assert(ctx.view().sols[entry_len] == s0.board);
            }
            assert(ctx.view().sols[entry_len] == s0.board);
            assert(extends(s0.board, s0.board));
            if is_cell_order(cell_order@) && filled_before(s0.board, cell_order@, cell_idx as int) {
                lemma_order_fills_board(s0.board, cell_order@);
                assert(ctx.view().sols[entry_len] == s0.board);
                assert forall|g: Seq<Seq<u8>>| #[trigger] solves(g, s0.board) implies lists_from(
                    ctx.view().sols,
                    entry_len,
                    g,
                ) by {
                    lemma_full_board_unique(g, s0.board);
                }
                assert forall|g: Seq<Seq<u8>>| #[trigger] solves(g, s0.board) implies entry_len
                    < ctx.view().sols.len() && (ctx.view().sols[entry_len] == g || lex_before(
                    cell_order@,
                    ctx.view().sols[entry_len],
                    g,
                )) by {
                    lemma_full_board_unique(g, s0.board);
                }
            }
        }
        return;
    }

    let (i, j) = cell_order[current_idx];
    proof {
        assert(s0.board[i as int][j as int] == 0);
    }
    // A decision node.
    ctx.stats.nodes_explored = saturating_inc(ctx.stats.nodes_explored);
    if depth > ctx.stats.max_recursion_depth {
        ctx.stats.max_recursion_depth = depth;
    }
    ctx.stats.tree_width_by_level[depth] = saturating_inc(ctx.stats.tree_width_by_level[depth]);
    proof {
        lemma_nat_sum_bump(ctx.tally@.widths, depth as int, 81);
    }
    ctx.tally = Ghost(enter_node(ctx.tally@, depth as nat));
    let ghost b0 = ctx.board;

    let mut any_valid_moves: bool = false;
    let mut num: u8 = 1;
    while num <= 9
        invariant
            1 <= num <= 10,
            i < 9,
            j < 9,
            depth <= current_idx < 81,
            cell_idx <= current_idx,
            cells_in_range(cell_order@),
            cell_order@[current_idx as int] == (i, j),
            ctx.inv(),
            b0[i as int][j as int] == 0,
            grid_view(ctx.board) == grid_view(b0),
            !find_all ==> ctx.solutions@.len() == 0,
            target == try_digits(
                ctx.view(),
                cell_order@,
                current_idx as int,
                depth as nat,
                num as int,
                any_valid_moves,
                find_all,
            ),
            s0.board == grid_view(b0),
            s0 == old(ctx).view(),
            target == explore(s0, cell_order@, cell_idx as int, depth as nat, find_all),
            entry_len == s0.sols.len(),
            filled_before(s0.board, cell_order@, cell_idx as int) ==> filled_before(
                s0.board,
                cell_order@,
                current_idx as int,
            ),
            ctx.solutions@.len() >= entry_len,
            forall|n: int| 0 <= n < entry_len ==> #[trigger] ctx.view().sols[n] == s0.sols[n],
            forall|g: Seq<Seq<u8>>|
                #[trigger] solves(g, s0.board) && g[i as int][j as int] < num
                    ==> ctx.solutions@.len() > entry_len,
            is_cell_order(cell_order@) && no_conflicts(s0.board) && filled_before(
                s0.board,
                cell_order@,
                current_idx as int,
            ) ==> sound_from(ctx.view().sols, entry_len, s0.board),
            find_all && is_cell_order(cell_order@) && filled_before(
                s0.board,
                cell_order@,
                current_idx as int,
            ) ==> forall|g: Seq<Seq<u8>>|
                #[trigger] solves(g, s0.board) && g[i as int][j as int] < num ==> lists_from(
                    ctx.view().sols,
                    entry_len,
                    g,
                ),
            masks_match(s0.board, old(ctx).rows@, old(ctx).cols@, old(ctx).subgrids@),
            forall|n: int|
                entry_len <= n < ctx.solutions@.len() ==> extends(#[trigger] ctx.view().sols[n], s0.board)
                    && ctx.view().sols[n][i as int][j as int] < num,
            filled_before(s0.board, cell_order@, current_idx as int) ==> ascending_from(
                ctx.view().sols,
                entry_len,
                cell_order@,
            ),
            is_cell_order(cell_order@) && filled_before(s0.board, cell_order@, current_idx as int)
                && ctx.solutions@.len() > entry_len ==> forall|g: Seq<Seq<u8>>|
                #[trigger] solves(g, s0.board) ==> (ctx.view().sols[entry_len] == g || lex_before(
                    cell_order@,
                    ctx.view().sols[entry_len],
                    g,
                )),
        decreases 10 - num,
    {
        proof {
            lemma_grid_view(ctx.board);
            lemma_grid_view(b0);
        }
        let ghost any0 = any_valid_moves;
        if is_safe(&ctx.rows, &ctx.cols, &ctx.subgrids, i, j, num) {
            any_valid_moves = true;
            let ghost before = ctx.view();
            let ghost rows0 = ctx.rows@;
            let ghost cols0 = ctx.cols@;
            let ghost boxes0 = ctx.subgrids@;
            let ghost a0 = ctx.board;
            let ghost len0 = ctx.solutions@.len() as int;
            assert(digit_free(grid_view(b0), i as int, j as int, num));

            // Place the digit.
            ctx.board[i][j] = num;
            let bit: u16 = 1u16 << num;
            let b: usize = box_index(i, j);
            ctx.rows[i] = ctx.rows[i] | bit;
            ctx.cols[j] = ctx.cols[j] | bit;
            ctx.subgrids[b] = ctx.subgrids[b] | bit;
            let ghost placed = put(s0.board, i as int, j as int, num);
            proof {
                lemma_grid_write(a0, ctx.board, i as int, j as int, num);
                lemma_place_masks(grid_view(a0), rows0, cols0, boxes0, i as int, j as int, num);
                assert(ctx.rows@ == rows0.update(i as int, rows0[i as int] | digit_bit(num)));
                assert(ctx.cols@ == cols0.update(j as int, cols0[j as int] | digit_bit(num)));
                assert(ctx.subgrids@ == boxes0.update(
                    box_of(i as int, j as int),
                    boxes0[box_of(i as int, j as int)] | digit_bit(num),
                ));
                lemma_grid_view(ctx.board);
                assert(grid_view(ctx.board) == placed);
                if is_cell_order(cell_order@) && no_conflicts(s0.board) && filled_before(
                    s0.board,
                    cell_order@,
                    current_idx as int,
                ) {
                    lemma_place_no_conflicts(s0.board, i as int, j as int, num);
                    assert forall|k: int| 0 <= k < current_idx + 1 implies placed[(
                    #[trigger] cell_order@[k]).0 as int][cell_order@[k].1 as int] != 0 by {
                        if k < current_idx {
                            assert(s0.board[cell_order@[k].0 as int][cell_order@[k].1 as int]
                                != 0);
                        }
                    }
                }
            }
            assert(ctx.view() == SearchState {
                board: put(before.board, i as int, j as int, num),
                ..before
            });

            solve_recursive_cell_order(ctx, cell_order, current_idx + 1, depth + 1, find_all);

            proof {
                lemma_extends_placed(s0.board, i as int, j as int, num);
                assert forall|n: int| entry_len <= n < ctx.solutions@.len() implies extends(
                    #[trigger] ctx.view().sols[n],
                    s0.board,
                ) && ctx.view().sols[n][i as int][j as int] < num + 1 by {
                    if n >= len0 {
                        lemma_extends_trans(ctx.view().sols[n], placed, s0.board);
                        assert(placed[i as int][j as int] == num);
                    } else {
                        assert(ctx.view().sols[n] == before.sols[n]);
                    }
                }
                if filled_before(s0.board, cell_order@, current_idx as int) {
                    assert forall|k: int| 0 <= k < current_idx + 1 implies placed[(
                    #[trigger] cell_order@[k]).0 as int][cell_order@[k].1 as int] != 0 by {
                        if k < current_idx {
                            assert(s0.board[cell_order@[k].0 as int][cell_order@[k].1 as int]
                                != 0);
                        }
                    }
                    let sv = ctx.view().sols;
                    assert forall|n1: int, n2: int| entry_len <= n1 < n2 < sv.len() implies lex_before(
                        cell_order@,
                        #[trigger] sv[n1],
                        #[trigger] sv[n2],
                    ) by {
                        if n2 < len0 {
                            assert(sv[n1] == before.sols[n1]);
                            assert(sv[n2] == before.sols[n2]);
                        } else if n1 >= len0 {
                        } else {
                            let g1 = sv[n1];
                            let g2 = sv[n2];
                            assert(g1 == before.sols[n1]);
                            lemma_extends_trans(g2, placed, s0.board);
                            assert(extends(g1, s0.board));
                            assert(placed[i as int][j as int] == num);
                            assert(at_pos(g1, cell_order@, current_idx as int) < at_pos(
                                g2,
                                cell_order@,
                                current_idx as int,
                            ));
                            assert forall|m: int| 0 <= m < current_idx implies #[trigger] at_pos(
                                g1,
                                cell_order@,
                                m,
                            ) == at_pos(g2, cell_order@, m) by {
                                let r = cell_order@[m].0 as int;
                                let c = cell_order@[m].1 as int;
                                assert(s0.board[r][c] != 0);
                            }
                        }
                    }
                }
                if is_cell_order(cell_order@) && filled_before(
                    s0.board,
                    cell_order@,
                    current_idx as int,
                ) && ctx.solutions@.len() > entry_len {
                    assert forall|k: int| 0 <= k < current_idx + 1 implies placed[(
                    #[trigger] cell_order@[k]).0 as int][cell_order@[k].1 as int] != 0 by {
                        if k < current_idx {
                            assert(s0.board[cell_order@[k].0 as int][cell_order@[k].1 as int]
                                != 0);
                        }
                    }
                    let sv = ctx.view().sols;
                    assert forall|g: Seq<Seq<u8>>| #[trigger] solves(g, s0.board) implies (sv[entry_len]
                        == g || lex_before(cell_order@, sv[entry_len], g)) by {
                        if len0 > entry_len {
                            assert(sv[entry_len] == before.sols[entry_len]);
                        } else {
                            let first = sv[entry_len];
                            assert(g[i as int][j as int] >= num);
                            if g[i as int][j as int] == num {
                                lemma_solution_digit_free(g, s0.board, i as int, j as int);
                                assert(solves(g, placed));
                            } else {
                                lemma_extends_trans(first, placed, s0.board);
                                assert(first[i as int][j as int] == num);
                                assert(at_pos(first, cell_order@, current_idx as int) < at_pos(
                                    g,
                                    cell_order@,
                                    current_idx as int,
                                ));
                                assert forall|m: int| 0 <= m < current_idx implies #[trigger] at_pos(
                                    first,
                                    cell_order@,
                                    m,
                                ) == at_pos(g, cell_order@, m) by {
                                    let r = cell_order@[m].0 as int;
                                    let c = cell_order@[m].1 as int;
                                    assert(s0.board[r][c] != 0);
                                }
                            }
                        }
                    }
                }
                if find_all && is_cell_order(cell_order@) && filled_before(
                    s0.board,
                    cell_order@,
                    current_idx as int,
                ) {
                    assert forall|k: int| 0 <= k < current_idx + 1 implies placed[(
                    #[trigger] cell_order@[k]).0 as int][cell_order@[k].1 as int] != 0 by {
                        if k < current_idx {
                            assert(s0.board[cell_order@[k].0 as int][cell_order@[k].1 as int]
                                != 0);
                        }
                    }
                    assert forall|g: Seq<Seq<u8>>|
                        #[trigger] solves(g, s0.board) && g[i as int][j as int] < num + 1
                            implies lists_from(ctx.view().sols, entry_len, g) by {
                        if g[i as int][j as int] == num {
                            lemma_solution_digit_free(g, s0.board, i as int, j as int);
                            assert(solves(g, placed));
                            let n = choose|n: int| len0 <= n < ctx.view().sols.len() && #[trigger] ctx.view().sols[n] == g;
                            assert(entry_len <= n);
                        } else {
                            let n = choose|n: int| entry_len <= n < before.sols.len() && #[trigger] before.sols[n] == g;
                            assert(ctx.view().sols[n] == before.sols[n]);
                        }
                    }
                }
                assert forall|g: Seq<Seq<u8>>|
                    #[trigger] solves(g, s0.board) && g[i as int][j as int] < num + 1
                        implies ctx.solutions@.len() > entry_len by {
                    if g[i as int][j as int] == num {
                        lemma_solution_digit_free(g, s0.board, i as int, j as int);
                        assert(solvable(placed));
                    }
                }
                if is_cell_order(cell_order@) && no_conflicts(s0.board) && filled_before(
                    s0.board,
                    cell_order@,
                    current_idx as int,
                ) {
                    assert forall|n: int| entry_len <= n < ctx.view().sols.len() implies solves(
                        #[trigger] ctx.view().sols[n],
                        s0.board,
                    ) by {
                        if n >= len0 {
                            let g = ctx.view().sols[n];
                            assert(solves(g, placed));
                            assert forall|r: int, c: int|
                                0 <= r < 9 && 0 <= c < 9 && #[trigger] s0.board[r][c] != 0 implies g[r][c]
                                == s0.board[r][c] by {
                                assert(placed[r][c] == s0.board[r][c]);
                            }
                        } else {
                            assert(ctx.view().sols[n] == before.sols[n]);
                        }
                    }
                }
            }
            let ghost after = explore(
                SearchState { board: put(before.board, i as int, j as int, num), ..before },
                cell_order@,
                current_idx as int + 1,
                depth as nat + 1,
                find_all,
            );
            assert(ctx.view() == after);
            assert(target == try_digits(
                before,
                cell_order@,
                current_idx as int,
                depth as nat,
                num as int,
                any0,
                find_all,
            ));
            if !ctx.solutions.is_empty() && !find_all {
                // Stop at the first solution. The digit stays on the board:
                // only the recorded solution is read after the search.
                assert(after.sols.len() > 0);
                return;
            }

            // Take the digit back.
            let ghost a1 = ctx.board;
            let ghost rows1 = ctx.rows@;
            let ghost cols1 = ctx.cols@;
            let ghost boxes1 = ctx.subgrids@;
            let ghost sols1 = ctx.view().sols;
            ctx.board[i][j] = 0;
            ctx.rows[i] = ctx.rows[i] & !bit;
            ctx.cols[j] = ctx.cols[j] & !bit;
            ctx.subgrids[b] = ctx.subgrids[b] & !bit;
            ctx.stats.backtracks = saturating_inc(ctx.stats.backtracks);
            ctx.tally = Ghost(add_backtrack(ctx.tally@));
            proof {
                lemma_grid_view(a1);
                lemma_grid_write(a1, ctx.board, i as int, j as int, 0);
                lemma_put_back(grid_view(b0), i as int, j as int, num);
                lemma_unplace_masks(grid_view(b0), rows1, cols1, boxes1, i as int, j as int, num);
                assert(ctx.rows@ == rows1.update(i as int, rows1[i as int] & !digit_bit(num)));
                assert(ctx.cols@ == cols1.update(j as int, cols1[j as int] & !digit_bit(num)));
                assert(ctx.subgrids@ == boxes1.update(
                    box_of(i as int, j as int),
                    boxes1[box_of(i as int, j as int)] & !digit_bit(num),
                ));
                lemma_grid_view(ctx.board);
                assert(ctx.view().sols == sols1);
            }
        }
        num += 1;
    }

    proof {
        if solvable(s0.board) {
            let g = choose|g: Seq<Seq<u8>>| solves(g, s0.board);
            assert(g[i as int][j as int] <= 9);
        }
        assert forall|g: Seq<Seq<u8>>| #[trigger] solves(g, s0.board) implies g[i as int][j as int] < 10 by {}
        lemma_masks_determined(
            s0.board,
            ctx.rows@,
            ctx.cols@,
            ctx.subgrids@,
            old(ctx).rows@,
            old(ctx).cols@,
            old(ctx).subgrids@,
        );
    }
    if !any_valid_moves {
        // No digit fits: a dead end.
        ctx.stats.leaves = saturating_inc(ctx.stats.leaves);
        ctx.tally = Ghost(add_leaf(ctx.tally@));
    }
}

/// An order that covers every cell, filled all along, leaves no empty cell.
proof fn lemma_order_fills_board(b: Seq<Seq<u8>>, order: Seq<(usize, usize)>)
    requires
        is_cell_order(order),
        filled_before(b, order, 81),
    ensures
        is_full(b),
{
    assert forall|r: int, c: int| 0 <= r < 9 && 0 <= c < 9 implies #[trigger] b[r][c] != 0 by {
        assert(covers(order, r, c));
        let k = choose|k: int| 0 <= k < order.len() && #[trigger] order[k] == (r as usize, c as usize);
        assert(b[order[k].0 as int][order[k].1 as int] != 0);
    }
}

/// What the search on `p` along `order` is proved to give: the histogram of
/// widths sums to the number of decision nodes; a puzzle that some completed
/// grid solves yields a solution; when the order is a permutation of the cells
/// and the clues are free of conflicts, every solution recorded solves the
/// puzzle; a puzzle with every cell filled takes no decision node; searching
/// for all solutions along a permutation of the cells records every
/// completed grid that solves the puzzle; the solutions come in increasing
/// order along the cell order, the first being the least completed grid of
/// the puzzle.
pub open spec fn search_facts(p: Seq<Seq<u8>>, order: Seq<(usize, usize)>, find_all: bool) -> bool {
    let m = search_outcome(p, order, find_all);
    &&& m.tally.widths.len() == 81
    &&& nat_sum(m.tally.widths, 81) == m.tally.nodes
    &&& m.tally.max_depth <= 80
    &&& solvable(p) ==> m.sols.len() > 0
    &&& is_cell_order(order) && no_conflicts(p) ==> forall|n: int|
        0 <= n < m.sols.len() ==> solves(#[trigger] m.sols[n], p)
    &&& is_full(p) ==> m.tally.nodes == 0
    &&& find_all && is_cell_order(order) ==> forall|g: Seq<Seq<u8>>|
        #[trigger] solves(g, p) ==> lists_from(m.sols, 0, g)
    &&& ascending_from(m.sols, 0, order)
    &&& is_cell_order(order) ==> least_from(m.sols, 0, order, p)
}

/// Every entry of the board is 0 or a digit.
pub open spec fn board_entries_ok(g: [[u8; 9]; 9]) -> bool {
    forall|i: int, j: int| 0 <= i < 9 && 0 <= j < 9 ==> #[trigger] g[i][j] <= 9
}

proof fn lemma_nat_sum_zero(n: int)
    requires
        0 <= n <= 81,
    ensures
        nat_sum(Seq::new(81, |d: int| 0nat), n) == 0,
    decreases n,
{
    if n > 0 {
        lemma_nat_sum_zero(n - 1);
    }
}

/// The board of the puzzle's clues (0 for the other cells) and the bit-sets
/// of its rows, columns and boxes.
fn initialize_from_sudoku(sudoku: &Sudoku) -> (r: ([[u8; 9]; 9], [u16; 9], [u16; 9], [u16; 9]))
    requires
        sudoku.wf(),
    ensures
        grid_view(r.0) == sudoku.board(),
        masks_match(grid_view(r.0), r.1@, r.2@, r.3@),
        entries_in_range(grid_view(r.0)),
{
    // The clues of the puzzle, with their bits set.
    let mut board: [[u8; 9]; 9] = [[0u8; 9]; 9];
    let mut rows: [u16; 9] = [0u16; 9];
    let mut cols: [u16; 9] = [0u16; 9];
    let mut subgrids: [u16; 9] = [0u16; 9];
    proof {
        lemma_grid_view(board);
        assert(mask_clean(0u16)) by (bit_vector);
        assert forall|u: int, d: u8| 0 <= u < 9 && 1 <= d <= 9 implies {
            &&& #[trigger] has_digit(rows@[u], d) == row_has(grid_view(board), u, d)
            &&& has_digit(cols@[u], d) == col_has(grid_view(board), u, d)
            &&& has_digit(subgrids@[u], d) == box_has(grid_view(board), u, d)
        } by {
            lemma_bit_empty(d);
        }
        assert forall|u: int, d: u8| 0 <= u < 9 && 1 <= d <= 9 implies #[trigger] has_digit(cols@[u], d)
            == col_has(grid_view(board), u, d) by {
            assert(has_digit(rows@[u], d) == row_has(grid_view(board), u, d));
        }
        assert forall|u: int, d: u8| 0 <= u < 9 && 1 <= d <= 9 implies #[trigger] has_digit(subgrids@[u], d)
            == box_has(grid_view(board), u, d) by {
            assert(has_digit(rows@[u], d) == row_has(grid_view(board), u, d));
        }
    }
    let mut i: usize = 0;
    while i < 9
        invariant
            0 <= i <= 9,
            sudoku.wf(),
            masks_match(grid_view(board), rows@, cols@, subgrids@),
            forall|r: int, c: int| 0 <= r < 9 && 0 <= c < 9 ==> #[trigger] board[r][c] <= 9,
            forall|r: int, c: int|
                0 <= r < 9 && 0 <= c < 9 ==> #[trigger] board[r][c] == if r < i {
                    sudoku.value(r, c)
                } else {
                    0
                },
        decreases 9 - i,
    {
        let mut j: usize = 0;
        while j < 9
            invariant
                0 <= i < 9,
                0 <= j <= 9,
                sudoku.wf(),
                masks_match(grid_view(board), rows@, cols@, subgrids@),
                forall|r: int, c: int| 0 <= r < 9 && 0 <= c < 9 ==> #[trigger] board[r][c] <= 9,
                forall|r: int, c: int|
                    0 <= r < 9 && 0 <= c < 9 ==> #[trigger] board[r][c] == if r < i || (r == i && c
                        < j) {
                        sudoku.value(r, c)
                    } else {
                        0
                    },
            decreases 9 - j,
        {
            if let Some(value) = sudoku.get_solved_value(i, j) {
                let ghost a0 = board;
                let ghost rows0 = rows@;
                let ghost cols0 = cols@;
                let ghost boxes0 = subgrids@;
                proof {
                    lemma_grid_view(a0);
                }
                board[i][j] = value;
                let bit: u16 = 1u16 << value;
                let b: usize = box_index(i, j);
                rows[i] = rows[i] | bit;
                cols[j] = cols[j] | bit;
                subgrids[b] = subgrids[b] | bit;
                proof {
                    lemma_grid_write(a0, board, i as int, j as int, value);
                    lemma_place_masks(grid_view(a0), rows0, cols0, boxes0, i as int, j as int, value);
                    assert(rows@ == rows0.update(i as int, rows0[i as int] | digit_bit(value)));
                    assert(cols@ == cols0.update(j as int, cols0[j as int] | digit_bit(value)));
                    assert(subgrids@ == boxes0.update(
                        box_of(i as int, j as int),
                        boxes0[box_of(i as int, j as int)] | digit_bit(value),
                    ));
                }
            }
            j += 1;
        }
        i += 1;
    }
    proof {
        lemma_grid_view(board);
        assert forall|r: int| 0 <= r < 9 implies #[trigger] grid_view(board)[r] =~= sudoku.board()[r] by {
            assert forall|c: int| 0 <= c < 9 implies grid_view(board)[r][c] == sudoku.board()[r][c] by {
                assert(board[r][c] == sudoku.value(r, c));
            }
        }
        assert(grid_view(board) =~= sudoku.board());
        assert forall|r: int, c: int| 0 <= r < 9 && 0 <= c < 9 implies #[trigger] grid_view(board)[r][c] <= 9 by {
            assert(board[r][c] <= 9);
        }
    }
    (board, rows, cols, subgrids)

}

/// Runs the search on the puzzle along `cell_order`, from the clues of the
/// puzzle, and hands back the completed boards found and the counters.
pub(crate) fn run_search(sudoku: &Sudoku, cell_order: &Vec<(usize, usize)>, find_all: bool) -> (r: (
    Vec<[[u8; 9]; 9]>,
    SolverStats,
))
    requires
        sudoku.wf(),
        cells_in_range(cell_order@),
    ensures
        r.0@.map_values(|g: [[u8; 9]; 9]| grid_view(g)) == search_outcome(
            sudoku.board(),
            cell_order@,
            find_all,
        ).sols,
        forall|n: int| 0 <= n < r.0@.len() ==> board_entries_ok(#[trigger] r.0@[n]),
        stats_match(r.1, search_outcome(sudoku.board(), cell_order@, find_all).tally),
        search_facts(sudoku.board(), cell_order@, find_all),
{
    let (board, rows, cols, subgrids) = initialize_from_sudoku(sudoku);
    proof {
        lemma_nat_sum_zero(81);
    }

    let mut ctx = SearchContext {
        board,
        rows,
        cols,
        subgrids,
        stats: SolverStats::new(),
        solutions: Vec::new(),
        tally: Ghost(empty_tally()),
    };
    proof {
        assert(ctx.view().sols =~= Seq::<Seq<Seq<u8>>>::empty());
        assert(ctx.view() == start(sudoku.board()));
    }
    proof {
        assert(filled_before(grid_view(ctx.board), cell_order@, 0));
    }
    solve_recursive_cell_order(&mut ctx, cell_order, 0, 0, find_all);
    proof {
        let m = search_outcome(sudoku.board(), cell_order@, find_all);
        assert(ctx.view() == m);
        assert forall|n: int| 0 <= n < ctx.solutions@.len() implies board_entries_ok(
            #[trigger] ctx.solutions@[n],
        ) by {
            let g = ctx.solutions@[n];
            lemma_grid_view(g);
            assert(entries_in_range(ctx.view().sols[n]));
            assert forall|i: int, j: int| 0 <= i < 9 && 0 <= j < 9 implies #[trigger] g[i][j] <= 9 by {
                assert(grid_view(g)[i][j] <= 9);
            }
        }
        if is_full(sudoku.board()) {
            assert(empty_tally().nodes == 0);
        }
    }
    (ctx.solutions, ctx.stats)
}

} // verus!

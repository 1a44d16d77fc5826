use vstd::prelude::*;
use std::time::Duration;
use crate::timing::zero_duration;

verus! {

/// Number of levels the search tree can have: one per cell.
pub const LEVELS: usize = 81;

/// Sum of the first `n` entries of `w`.
pub open spec fn width_sum(w: Seq<usize>, n: int) -> int
    decreases n,
{
    if n <= 0 {
        0
    } else {
        width_sum(w, n - 1) + w[n - 1]
    }
}

/// Number of nonzero entries among the first `n` of `w`.
pub open spec fn nonzero_count(w: Seq<usize>, n: int) -> int
    decreases n,
{
    if n <= 0 {
        0
    } else {
        nonzero_count(w, n - 1) + if w[n - 1] > 0 { 1int } else { 0int }
    }
}

/// The (depth, width) pairs of the nonzero entries among the first `n` of `w`,
/// by increasing depth.
pub open spec fn nonzero_levels(w: Seq<usize>, n: int) -> Seq<(usize, usize)>
    decreases n,
{
    if n <= 0 {
        Seq::empty()
    } else if w[n - 1] > 0 {
        nonzero_levels(w, n - 1).push(((n - 1) as usize, w[n - 1]))
    } else {
        nonzero_levels(w, n - 1)
    }
}

/// Counters gathered by one run of the backtracking search.
#[derive(Debug, Clone)]
pub struct SolverStats {
    pub solutions_found: usize,
    pub search_duration: Duration,
    pub max_recursion_depth: usize,
    pub nodes_explored: usize,
    pub backtracks: usize,
    pub leaves: usize,
    pub tree_width_by_level: [usize; 81],
}

impl SolverStats {
    /// Sum of all the widths of the tree, level by level.
    pub open spec fn width_total(&self) -> int {
        width_sum(self.tree_width_by_level@, 81)
    }

    /// All counters at zero.
    pub open spec fn is_zero(&self) -> bool {
        &&& self.solutions_found == 0
        &&& self.max_recursion_depth == 0
        &&& self.nodes_explored == 0
        &&& self.backtracks == 0
        &&& self.leaves == 0
        &&& forall|d: int| 0 <= d < 81 ==> self.tree_width_by_level[d] == 0
    }

    /// Fresh counters, all at zero.
    pub fn new() -> (s: SolverStats)
        ensures
            s.is_zero(),
    {
        SolverStats {
            solutions_found: 0,
            search_duration: zero_duration(),
            max_recursion_depth: 0,
            nodes_explored: 0,
            backtracks: 0,
            leaves: 0,
            tree_width_by_level: [0usize; 81],
        }
    }

    /// The largest width of any level, and the first level that has it.
    pub fn max_tree_width(&self) -> (r: (usize, usize))
        ensures
            r.1 < 81,
            self.tree_width_by_level[r.1 as int] == r.0,
            forall|d: int| 0 <= d < 81 ==> self.tree_width_by_level[d] <= r.0,
            forall|d: int| 0 <= d < r.1 ==> self.tree_width_by_level[d] < r.0,
    {
        let mut best: usize = self.tree_width_by_level[0];
        let mut at: usize = 0;
        let mut d: usize = 1;
        while d < LEVELS
            invariant
                1 <= d <= 81,
                at < d,
                self.tree_width_by_level[at as int] == best,
                forall|e: int| 0 <= e < d ==> self.tree_width_by_level[e] <= best,
                forall|e: int| 0 <= e < at ==> self.tree_width_by_level[e] < best,
            decreases 81 - d,
        {
            if self.tree_width_by_level[d] > best {
                best = self.tree_width_by_level[d];
                at = d;
            }
            d += 1;
        }
        (best, at)
    }

    /// Sum of the widths of all levels: the number of decision nodes that the
    /// histogram accounts for.
    pub fn total_nodes_from_tree(&self) -> (r: usize)
        requires
            self.width_total() <= usize::MAX,
        ensures
            r == self.width_total(),
    {
        let mut total: usize = 0;
        let mut d: usize = 0;
        while d < LEVELS
            invariant
                0 <= d <= 81,
                total == width_sum(self.tree_width_by_level@, d as int),
                self.width_total() <= usize::MAX,
            decreases 81 - d,
        {
            proof {
                lemma_width_sum_monotone(self.tree_width_by_level@, d as int + 1, 81);
            }
            total = total + self.tree_width_by_level[d];
            d += 1;
        }
        total
    }

    /// Whether the histogram accounts for exactly the nodes counted.
    pub fn is_tree_data_consistent(&self) -> (r: bool)
        ensures
            r == (self.width_total() == self.nodes_explored),
    {
        let mut total: usize = 0;
        let mut d: usize = 0;
        while d < LEVELS
            invariant
                0 <= d <= 81,
                total == width_sum(self.tree_width_by_level@, d as int),
                total <= self.nodes_explored,
            decreases 81 - d,
        {
            if self.tree_width_by_level[d] > self.nodes_explored - total {
                proof {
                    lemma_width_sum_monotone(self.tree_width_by_level@, d as int + 1, 81);
                }
                return false;
            }
            total = total + self.tree_width_by_level[d];
            d += 1;
        }
        total == self.nodes_explored
    }

    /// Number of levels whose width is not zero.
    pub fn branching_levels_count(&self) -> (r: usize)
        ensures
            r == nonzero_count(self.tree_width_by_level@, 81),
    {
        let mut count: usize = 0;
        let mut d: usize = 0;
        while d < LEVELS
            invariant
                0 <= d <= 81,
                count == nonzero_count(self.tree_width_by_level@, d as int),
                count <= d,
            decreases 81 - d,
        {
            if self.tree_width_by_level[d] > 0 {
                count += 1;
            }
            d += 1;
        }
        count
    }

    /// The (depth, width) pairs of the levels whose width is not zero.
    pub fn non_zero_tree_widths(&self) -> (r: Vec<(usize, usize)>)
        ensures
            r@ == nonzero_levels(self.tree_width_by_level@, 81),
    {
        let mut out: Vec<(usize, usize)> = Vec::new();
        let mut d: usize = 0;
        while d < LEVELS
            invariant
                0 <= d <= 81,
                out@ == nonzero_levels(self.tree_width_by_level@, d as int),
            decreases 81 - d,
        {
            if self.tree_width_by_level[d] > 0 {
                out.push((d, self.tree_width_by_level[d]));
            }
            d += 1;
        }
        out
    }

    /// Leaves that are dead ends rather than solutions.
    pub fn dead_end_leaves(&self) -> (r: usize)
        ensures
            r == if self.leaves >= self.solutions_found {
                self.leaves - self.solutions_found
            } else {
                0
            },
    {
        if self.leaves >= self.solutions_found {
            self.leaves - self.solutions_found
        } else {
            0
        }
    }
}

impl Default for SolverStats {
    fn default() -> (s: SolverStats)
        ensures
            s.is_zero(),
    {
        SolverStats::new()
    }
}

/// A partial sum never exceeds a longer one.
pub proof fn lemma_width_sum_monotone(w: Seq<usize>, m: int, n: int)
    requires
        0 <= m <= n,
    ensures
        width_sum(w, m) <= width_sum(w, n),
    decreases n - m,
{
    if m < n {
        lemma_width_sum_monotone(w, m, n - 1);
    }
}

} // verus!

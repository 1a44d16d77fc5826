use vstd::prelude::*;
use rand::seq::SliceRandom;
use crate::search::{cells_in_range, covers, is_cell_order};

verus! {

broadcast use vstd::seq_lib::group_to_multiset_ensures;

/// Index `v` stands somewhere in `p`.
pub open spec fn lists(p: Seq<usize>, v: int) -> bool {
    exists|k: int| 0 <= k < p.len() && #[trigger] p[k] == v as usize
}

/// A permutation of the indices 0..9.
pub open spec fn is_index_perm(p: Seq<usize>) -> bool {
    &&& p.len() == 9
    &&& forall|k: int| 0 <= k < 9 ==> #[trigger] p[k] < 9
    &&& forall|v: int| 0 <= v < 9 ==> #[trigger] lists(p, v)
}

/// The indices 0..9 in natural order.
pub open spec fn identity_order() -> Seq<usize> {
    Seq::new(9, |k: int| k as usize)
}

/// The cross product of a row order and a column order: each row in turn,
/// and within it the columns in their order.
pub open spec fn cross_order(rows: Seq<usize>, cols: Seq<usize>) -> Seq<(usize, usize)> {
    Seq::new(81, |k: int| (rows[k / 9], cols[k % 9]))
}

/// The cells from (0, 0) to (8, 8), row by row.
pub open spec fn row_major_order() -> Seq<(usize, usize)> {
    cross_order(identity_order(), identity_order())
}

/// Which order the search visits the cells in.
#[derive(Debug, Clone)]
pub enum SearchStrategy {
    /// Row by row, left to right.
    Default,
    /// Rows and columns each in a random order.
    RowColRandom,
    /// All cells in a random order.
    CellRandom,
    /// Rows and columns in the given orders.
    CustomRowCol { row_order: [usize; 9], col_order: [usize; 9] },
    /// The cells in the given order.
    CustomCell { cell_order: Vec<(usize, usize)> },
}

impl SearchStrategy {
    /// An explicit order is a permutation: of the indices for rows and
    /// columns, of the cells for a cell order.
    pub open spec fn well_formed(&self) -> bool {
        match self {
            SearchStrategy::CustomRowCol { row_order, col_order } => is_index_perm(row_order@)
                && is_index_perm(col_order@),
            SearchStrategy::CustomCell { cell_order } => is_cell_order(cell_order@),
            _ => true,
        }
    }

    /// `order` is one that the strategy may visit the cells in.
    pub open spec fn allows(&self, order: Seq<(usize, usize)>) -> bool {
        match self {
            SearchStrategy::Default => order == row_major_order(),
            SearchStrategy::RowColRandom => exists|rows: Seq<usize>, cols: Seq<usize>|
                is_index_perm(rows) && is_index_perm(cols) && order == #[trigger] cross_order(
                    rows,
                    cols,
                ),
            SearchStrategy::CellRandom => is_cell_order(order),
            SearchStrategy::CustomRowCol { row_order, col_order } => order == cross_order(
                row_order@,
                col_order@,
            ),
            SearchStrategy::CustomCell { cell_order } => order == cell_order@,
        }
    }

    /// Whether an explicit order is a permutation, as the search needs.
    pub fn is_well_formed(&self) -> (r: bool)
        ensures
            r == self.well_formed(),
    {
        match self {
            SearchStrategy::CustomRowCol { row_order, col_order } => is_index_permutation(row_order)
                && is_index_permutation(col_order),
            SearchStrategy::CustomCell { cell_order } => is_valid_cell_order(cell_order.as_slice()),
            _ => true,
        }
    }
}

/// The cells in the order of the cross product of `row_order` and `col_order`.
pub fn generate_cell_order_from_row_col(row_order: &[usize; 9], col_order: &[usize; 9]) -> (r: Vec<
    (usize, usize),
>)
    ensures
        r@ == cross_order(row_order@, col_order@),
{
    let mut cells: Vec<(usize, usize)> = Vec::with_capacity(81);
    let mut a: usize = 0;
    while a < 9
        invariant
            0 <= a <= 9,
            cells@.len() == a * 9,
            forall|k: int| 0 <= k < a * 9 ==> #[trigger] cells@[k] == (row_order@[k / 9], col_order@[k % 9]),
        decreases 9 - a,
    {
        let mut b: usize = 0;
        while b < 9
            invariant
                0 <= a < 9,
                0 <= b <= 9,
                cells@.len() == a * 9 + b,
                forall|k: int| 0 <= k < a * 9 + b ==> #[trigger] cells@[k] == (row_order@[k / 9], col_order@[k % 9]),
            decreases 9 - b,
        {
            proof {
                lemma_div_mod_nine(a as int, b as int);
            }
            cells.push((row_order[a], col_order[b]));
            b += 1;
        }
        a += 1;
    }
    proof {
        assert(cells@ =~= cross_order(row_order@, col_order@));
    }
    cells
}

proof fn lemma_div_mod_nine(a: int, b: int)
    requires
        0 <= a,
        0 <= b < 9,
    ensures
        (a * 9 + b) / 9 == a,
        (a * 9 + b) % 9 == b,
{
    assert((a * 9 + b) / 9 == a) by (nonlinear_arith)
        requires
            0 <= a,
            0 <= b < 9,
    ;
    assert((a * 9 + b) % 9 == b) by (nonlinear_arith)
        requires
            0 <= a,
            0 <= b < 9,
    ;
}

/// The cross product of two permutations of the indices visits every cell once.
pub proof fn lemma_cross_is_cell_order(rows: Seq<usize>, cols: Seq<usize>)
    requires
        is_index_perm(rows),
        is_index_perm(cols),
    ensures
        is_cell_order(cross_order(rows, cols)),
{
    let o = cross_order(rows, cols);
    assert forall|k: int| 0 <= k < 81 implies (#[trigger] o[k]).0 < 9 && o[k].1 < 9 by {
        assert(0 <= k / 9 < 9);
        assert(0 <= k % 9 < 9);
    }
    assert forall|r: int, c: int| 0 <= r < 9 && 0 <= c < 9 implies #[trigger] covers(o, r, c) by {
        assert(lists(rows, r));
        assert(lists(cols, c));
        let kr = choose|k: int| 0 <= k < rows.len() && #[trigger] rows[k] == r as usize;
        let kc = choose|k: int| 0 <= k < cols.len() && #[trigger] cols[k] == c as usize;
        lemma_div_mod_nine(kr, kc);
        assert(o[kr * 9 + kc] == (r as usize, c as usize));
    }
}

/// Relies on rand's `SliceRandom::shuffle` with the thread-local generator: it
/// reorders the items in place (by swaps), so the same items remain.
#[verifier::external_body]
fn shuffle_in_place<T>(v: &mut Vec<T>)
    ensures
        final(v)@.to_multiset() == old(v)@.to_multiset(),
{
    v.shuffle(&mut rand::rng());
}

/// The indices 0..9 in a random order.
pub fn random_index_order() -> (r: [usize; 9])
    ensures
        is_index_perm(r@),
{
    let mut v: Vec<usize> = Vec::new();
    let mut k: usize = 0;
    while k < 9
        invariant
            0 <= k <= 9,
            v@ == identity_order().subrange(0, k as int),
        decreases 9 - k,
    {
        v.push(k);
        k += 1;
        proof {
            assert(v@ =~= identity_order().subrange(0, k as int));
        }
    }
    let ghost before = v@;
    assert(before =~= identity_order());
    shuffle_in_place(&mut v);
    proof {
        assert(v@.len() == 9) by {
            assert(v@.to_multiset().len() == before.to_multiset().len());
        }
        assert forall|k: int| 0 <= k < 9 implies #[trigger] v@[k] < 9 by {
            assert(v@.contains(v@[k]));
            assert(v@.to_multiset().count(v@[k]) > 0);
            assert(before.contains(v@[k]));
        }
        assert forall|x: int| 0 <= x < 9 implies #[trigger] lists(v@, x) by {
            assert(before[x] == x as usize);
            assert(before.contains(x as usize));
            assert(before.to_multiset().count(x as usize) > 0);
            assert(v@.contains(x as usize));
        }
    }
    let mut out: [usize; 9] = [0usize; 9];
    let mut k: usize = 0;
    while k < 9
        invariant
            0 <= k <= 9,
            v@.len() == 9,
            forall|m: int| 0 <= m < k ==> #[trigger] out@[m] == v@[m],
        decreases 9 - k,
    {
        out[k] = v[k];
        k += 1;
    }
    proof {
        assert(out@ =~= v@);
    }
    out
}

/// All 81 cells in a random order.
pub fn random_cell_order() -> (r: Vec<(usize, usize)>)
    ensures
        is_cell_order(r@),
{
    let identity: [usize; 9] = [0, 1, 2, 3, 4, 5, 6, 7, 8];
    proof {
        assert(identity@ =~= identity_order());
        assert forall|v: int| 0 <= v < 9 implies #[trigger] lists(identity_order(), v) by {
            assert(identity_order()[v] == v as usize);
        }
        lemma_cross_is_cell_order(identity_order(), identity_order());
    }
    let mut cells = generate_cell_order_from_row_col(&identity, &identity);
    let ghost before = cells@;
    shuffle_in_place(&mut cells);
    proof {
        assert(cells@.len() == 81) by {
            assert(cells@.to_multiset().len() == before.to_multiset().len());
        }
        assert forall|k: int| 0 <= k < 81 implies (#[trigger] cells@[k]).0 < 9 && cells@[k].1 < 9 by {
            assert(cells@.contains(cells@[k]));
            assert(cells@.to_multiset().count(cells@[k]) > 0);
            assert(before.contains(cells@[k]));
        }
        assert forall|r: int, c: int| 0 <= r < 9 && 0 <= c < 9 implies #[trigger] covers(cells@, r, c) by {
            assert(covers(before, r, c));
            let k = choose|k: int| 0 <= k < before.len() && #[trigger] before[k] == (r as usize, c as usize);
            assert(before.contains((r as usize, c as usize)));
            assert(before.to_multiset().count((r as usize, c as usize)) > 0);
            assert(cells@.contains((r as usize, c as usize)));
        }
    }
    cells
}

/// The cells in the order that `strategy` visits them.
pub fn cell_order_for(strategy: &SearchStrategy) -> (r: Vec<(usize, usize)>)
    requires
        strategy.well_formed(),
    ensures
        is_cell_order(r@),
        strategy.allows(r@),
{
    match strategy {
        SearchStrategy::Default => {
            let identity: [usize; 9] = [0, 1, 2, 3, 4, 5, 6, 7, 8];
            proof {
                assert(identity@ =~= identity_order());
                assert forall|v: int| 0 <= v < 9 implies #[trigger] lists(identity_order(), v) by {
                    assert(identity_order()[v] == v as usize);
                }
                lemma_cross_is_cell_order(identity_order(), identity_order());
            }
            generate_cell_order_from_row_col(&identity, &identity)
        },
        SearchStrategy::RowColRandom => {
            let row_arr = random_index_order();
            let col_arr = random_index_order();
            proof {
                lemma_cross_is_cell_order(row_arr@, col_arr@);
            }
            generate_cell_order_from_row_col(&row_arr, &col_arr)
        },
        SearchStrategy::CellRandom => random_cell_order(),
        SearchStrategy::CustomRowCol { row_order, col_order } => {
            proof {
                lemma_cross_is_cell_order(row_order@, col_order@);
            }
            generate_cell_order_from_row_col(row_order, col_order)
        },
        SearchStrategy::CustomCell { cell_order } => vstd::slice::slice_to_vec(cell_order.as_slice()),
    }
}

/// Whether `p` is a permutation of the indices 0..9.
pub fn is_index_permutation(p: &[usize; 9]) -> (r: bool)
    ensures
        r == is_index_perm(p@),
{
    let mut k: usize = 0;
    while k < 9
        invariant
            0 <= k <= 9,
            forall|m: int| 0 <= m < k ==> #[trigger] p@[m] < 9,
        decreases 9 - k,
    {
        if p[k] >= 9 {
            return false;
        }
        k += 1;
    }
    let mut v: usize = 0;
    while v < 9
        invariant
            0 <= v <= 9,
            forall|m: int| 0 <= m < 9 ==> #[trigger] p@[m] < 9,
            forall|x: int| 0 <= x < v ==> #[trigger] lists(p@, x),
        decreases 9 - v,
    {
        let mut k: usize = 0;
        let mut found: bool = false;
        while k < 9
            invariant
                0 <= k <= 9,
                found ==> lists(p@, v as int),
                !found ==> forall|m: int| 0 <= m < k ==> #[trigger] p@[m] != v,
            decreases 9 - k,
        {
            if p[k] == v {
                found = true;
            }
            k += 1;
        }
        if !found {
            assert(!lists(p@, v as int));
            return false;
        }
        v += 1;
    }
    true
}

/// Whether `order` lists 81 cells of the board and every cell among them,
/// that is, a permutation of the cells.
pub fn is_valid_cell_order(order: &[(usize, usize)]) -> (r: bool)
    ensures
        r == is_cell_order(order@),
{
    if order.len() != 81 {
        return false;
    }
    let mut k: usize = 0;
    while k < 81
        invariant
            0 <= k <= 81,
            order@.len() == 81,
            forall|m: int| 0 <= m < k ==> (#[trigger] order@[m]).0 < 9 && order@[m].1 < 9,
        decreases 81 - k,
    {
        if order[k].0 >= 9 || order[k].1 >= 9 {
            return false;
        }
        k += 1;
    }
    let mut r: usize = 0;
    while r < 9
        invariant
            0 <= r <= 9,
            cells_in_range(order@),
            forall|i: int, j: int| 0 <= i < r && 0 <= j < 9 ==> #[trigger] covers(order@, i, j),
        decreases 9 - r,
    {
        let mut c: usize = 0;
        while c < 9
            invariant
                0 <= r < 9,
                0 <= c <= 9,
                cells_in_range(order@),
                forall|i: int, j: int|
                    (0 <= i < r && 0 <= j < 9) || (i == r && 0 <= j < c) ==> #[trigger] covers(order@, i, j),
            decreases 9 - c,
        {
            let mut k: usize = 0;
            let mut found: bool = false;
            while k < 81
                invariant
                    0 <= k <= 81,
                    order@.len() == 81,
                    found ==> covers(order@, r as int, c as int),
                    !found ==> forall|m: int| 0 <= m < k ==> #[trigger] order@[m] != (r, c),
                decreases 81 - k,
            {
                if order[k].0 == r && order[k].1 == c {
                    found = true;
                }
                k += 1;
            }
            if !found {
                assert(!covers(order@, r as int, c as int));
                return false;
            }
            c += 1;
        }
        r += 1;
    }
    true
}

} // verus!

use vstd::prelude::*;
use std::collections::BTreeSet;
use array2d::Array2D;

verus! {

#[verifier::external_type_specification]
#[verifier::external_body]
#[verifier::reject_recursive_types(T)]
pub struct ExArray2D<T>(Array2D<T>);

#[verifier::external_type_specification]
#[verifier::external_body]
pub struct ExArray2DError(array2d::Error);

/// What a grid of candidate sets holds: the set at each (row, column) that
/// lies inside the grid.
pub uninterp spec fn grid_cells(g: Array2D<BTreeSet<u8>>) -> Map<(int, int), Set<u8>>;

/// The (row, column) pairs of a 9x9 grid.
pub open spec fn nine_by_nine() -> Set<(int, int)> {
    Set::new(|rc: (int, int)| 0 <= rc.0 < 9 && 0 <= rc.1 < 9)
}

/// Relies on `Array2D::filled_with`: a 9x9 grid whose every cell is a clone of
/// `e` (a clone of a `BTreeSet` holds the same elements).
#[verifier::external_body]
pub(crate) fn grid_filled(e: BTreeSet<u8>) -> (g: Array2D<BTreeSet<u8>>)
    ensures
        grid_cells(g).dom() == nine_by_nine(),
        forall|rc: (int, int)| #[trigger] nine_by_nine().contains(rc) ==> grid_cells(g)[rc] == e@,
{
    Array2D::filled_with(e, 9, 9)
}

/// Relies on `Array2D::get`: the set at (row, column) when it lies inside the
/// grid, else `None`.
#[verifier::external_body]
pub(crate) fn grid_get(g: &Array2D<BTreeSet<u8>>, row: usize, col: usize) -> (r: Option<&BTreeSet<u8>>)
    ensures
        r is Some <==> grid_cells(*g).dom().contains((row as int, col as int)),
        r is Some ==> r->Some_0@ == grid_cells(*g)[(row as int, col as int)],
{
    g.get(row, col)
}

/// Relies on `Array2D::set`: inside the grid the cell takes `e` and the call
/// returns `Ok`; outside it the grid is left as it was and the call fails.
#[verifier::external_body]
pub(crate) fn grid_set(g: &mut Array2D<BTreeSet<u8>>, row: usize, col: usize, e: BTreeSet<u8>) -> (r: Result<(), array2d::Error>)
    ensures
        r is Ok <==> grid_cells(*old(g)).dom().contains((row as int, col as int)),
        r is Ok ==> grid_cells(*final(g)) == grid_cells(*old(g)).insert((row as int, col as int), e@),
        r is Err ==> grid_cells(*final(g)) == grid_cells(*old(g)),
{
    g.set(row, col, e)
}

} // verus!

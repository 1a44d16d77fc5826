use vstd::prelude::*;

verus! {

/// Index of the 3x3 box that holds the cell at row `r`, column `c`.
pub open spec fn box_of(r: int, c: int) -> int {
    (r / 3) * 3 + c / 3
}

/// The single-bit mask that stands for digit `d`.
pub open spec fn digit_bit(d: u8) -> u16 {
    1u16 << (d as u16)
}

/// Whether digit `d` is marked in the bit-set `m`.
pub open spec fn has_digit(m: u16, d: u8) -> bool {
    m & digit_bit(d) != 0
}

/// A 9x9 board: nine rows of nine entries, 0 for an empty cell.
pub open spec fn is_grid(b: Seq<Seq<u8>>) -> bool {
    &&& b.len() == 9
    &&& forall|r: int| 0 <= r < 9 ==> #[trigger] b[r].len() == 9
}

/// Every entry of the board is 0 or a digit 1..9.
pub open spec fn entries_in_range(b: Seq<Seq<u8>>) -> bool {
    forall|r: int, c: int| 0 <= r < 9 && 0 <= c < 9 ==> #[trigger] b[r][c] <= 9
}

/// The board seen as rows of entries.
pub open spec fn grid_view(a: [[u8; 9]; 9]) -> Seq<Seq<u8>> {
    a@.map_values(|row: [u8; 9]| row@)
}

/// The board `b` with the entry at row `i`, column `j` replaced by `v`.
pub open spec fn put(b: Seq<Seq<u8>>, i: int, j: int, v: u8) -> Seq<Seq<u8>> {
    b.update(i, b[i].update(j, v))
}

/// Row `i` of `b` holds digit `d`.
pub open spec fn row_has(b: Seq<Seq<u8>>, i: int, d: u8) -> bool {
    exists|c: int| 0 <= c < 9 && #[trigger] b[i][c] == d
}

/// Column `j` of `b` holds digit `d`.
pub open spec fn col_has(b: Seq<Seq<u8>>, j: int, d: u8) -> bool {
    exists|r: int| 0 <= r < 9 && #[trigger] b[r][j] == d
}

/// Box `k` of `b` holds digit `d`.
pub open spec fn box_has(b: Seq<Seq<u8>>, k: int, d: u8) -> bool {
    exists|r: int, c: int| 0 <= r < 9 && 0 <= c < 9 && box_of(r, c) == k && #[trigger] b[r][c] == d
}

/// Digit `d` occurs neither in the row, nor in the column, nor in the box of
/// the cell at row `i`, column `j`.
pub open spec fn digit_free(b: Seq<Seq<u8>>, i: int, j: int, d: u8) -> bool {
    !row_has(b, i, d) && !col_has(b, j, d) && !box_has(b, box_of(i, j), d)
}

/// A bit-set of digits: only bits 1..9 may be on; bit 0 and bits 10..15 stay clear.
pub open spec fn mask_clean(m: u16) -> bool {
    m & !0x3FEu16 == 0
}

/// The bit-sets record the board: bit `d` of a row's, column's or box's set is
/// on exactly when that unit holds digit `d`, and no other bit is on.
pub open spec fn masks_match(b: Seq<Seq<u8>>, rows: Seq<u16>, cols: Seq<u16>, boxes: Seq<u16>) -> bool {
    &&& rows.len() == 9
    &&& cols.len() == 9
    &&& boxes.len() == 9
    &&& forall|u: int| 0 <= u < 9 ==> #[trigger] mask_clean(rows[u])
    &&& forall|u: int| 0 <= u < 9 ==> #[trigger] mask_clean(cols[u])
    &&& forall|u: int| 0 <= u < 9 ==> #[trigger] mask_clean(boxes[u])
    &&& forall|u: int, d: u8|
        0 <= u < 9 && 1 <= d <= 9 ==> (#[trigger] has_digit(rows[u], d) == row_has(b, u, d))
    &&& forall|u: int, d: u8|
        0 <= u < 9 && 1 <= d <= 9 ==> (#[trigger] has_digit(cols[u], d) == col_has(b, u, d))
    &&& forall|u: int, d: u8|
        0 <= u < 9 && 1 <= d <= 9 ==> (#[trigger] has_digit(boxes[u], d) == box_has(b, u, d))
}

/// Two distinct cells that share a row, a column or a box.
pub open spec fn peers(r1: int, c1: int, r2: int, c2: int) -> bool {
    &&& (r1 != r2 || c1 != c2)
    &&& (r1 == r2 || c1 == c2 || box_of(r1, c1) == box_of(r2, c2))
}

/// No digit occurs twice in a row, a column or a box.
pub open spec fn no_conflicts(b: Seq<Seq<u8>>) -> bool {
    forall|r1: int, c1: int, r2: int, c2: int|
        0 <= r1 < 9 && 0 <= c1 < 9 && 0 <= r2 < 9 && 0 <= c2 < 9 && peers(r1, c1, r2, c2)
            && #[trigger] b[r1][c1] != 0 ==> b[r1][c1] != #[trigger] b[r2][c2]
}

/// A completed grid: every cell holds a digit 1..9 and no row, column or box
/// holds a digit twice.
pub open spec fn is_complete_grid(g: Seq<Seq<u8>>) -> bool {
    &&& is_grid(g)
    &&& forall|r: int, c: int| 0 <= r < 9 && 0 <= c < 9 ==> 1 <= #[trigger] g[r][c] <= 9
    &&& no_conflicts(g)
}

/// `g` keeps every filled cell of `b`.
pub open spec fn extends(g: Seq<Seq<u8>>, b: Seq<Seq<u8>>) -> bool {
    forall|r: int, c: int| 0 <= r < 9 && 0 <= c < 9 && #[trigger] b[r][c] != 0 ==> g[r][c] == b[r][c]
}

/// `g` solves the puzzle `p`: a completed grid that keeps its clues.
pub open spec fn solves(g: Seq<Seq<u8>>, p: Seq<Seq<u8>>) -> bool {
    is_complete_grid(g) && extends(g, p)
}

/// Some completed grid keeps the clues of `p`.
pub open spec fn solvable(p: Seq<Seq<u8>>) -> bool {
    exists|g: Seq<Seq<u8>>| solves(g, p)
}

/// The board with every cell empty.
pub open spec fn empty_board() -> Seq<Seq<u8>> {
    Seq::new(9, |r: int| Seq::new(9, |c: int| 0u8))
}

/// Every cell of the board is filled.
pub open spec fn is_full(b: Seq<Seq<u8>>) -> bool {
    forall|r: int, c: int| 0 <= r < 9 && 0 <= c < 9 ==> #[trigger] b[r][c] != 0
}

/// The feasibility test on bit-sets: digit `d` is marked neither in row
/// `i`'s set, nor in column `j`'s, nor in the set of the box of (i, j).
pub open spec fn feasible(rows: Seq<u16>, cols: Seq<u16>, boxes: Seq<u16>, i: int, j: int, d: u8) -> bool {
    !has_digit(rows[i], d) && !has_digit(cols[j], d) && !has_digit(boxes[box_of(i, j)], d)
}

/// A digit marked in a row's set fits no cell of that row, whatever the
/// column; nor one marked in a column's set any cell of that column.
pub proof fn law_marked_digit_blocks(rows: Seq<u16>, cols: Seq<u16>, boxes: Seq<u16>, i: int, j: int, d: u8)
    ensures
        has_digit(rows[i], d) ==> !feasible(rows, cols, boxes, i, j, d),
        has_digit(cols[j], d) ==> !feasible(rows, cols, boxes, i, j, d),
{
}

pub fn box_index(i: usize, j: usize) -> (b: usize)
    requires
        i < 9,
        j < 9,
    ensures
        b == box_of(i as int, j as int),
        b < 9,
{
    (i / 3) * 3 + j / 3
}

/// Feasibility check: `num` may go at row `i`, column `j` when it is marked
/// neither in the row's, nor in the column's, nor in the box's bit-set.
pub fn is_safe(
    rows: &[u16; 9],
    cols: &[u16; 9],
    subgrids: &[u16; 9],
    i: usize,
    j: usize,
    num: u8,
) -> (r: bool)
    requires
        i < 9,
        j < 9,
        1 <= num <= 9,
    ensures
        r == feasible(rows@, cols@, subgrids@, i as int, j as int, num),
{
    let bit: u16 = 1u16 << num;
    let b: usize = box_index(i, j);
    (rows[i] & bit) == 0 && (cols[j] & bit) == 0 && (subgrids[b] & bit) == 0
}

/// Setting bit `d` adds `d` to a bit-set and leaves the other digits as they were.
pub proof fn lemma_bit_insert(m: u16, d: u8, e: u8)
    requires
        1 <= d <= 9,
        1 <= e <= 9,
    ensures
        has_digit(m | digit_bit(d), e) == (has_digit(m, e) || d == e),
{
    let dd = d as u16;
    let ee = e as u16;
    assert((m | (1u16 << dd)) & (1u16 << ee) != 0 <==> (m & (1u16 << ee) != 0 || dd == ee))
        by (bit_vector)
        requires
            1 <= dd <= 9,
            1 <= ee <= 9,
    ;
}

/// Clearing bit `d` takes `d` out of a bit-set and leaves the other digits as they were.
pub proof fn lemma_bit_remove(m: u16, d: u8, e: u8)
    requires
        1 <= d <= 9,
        1 <= e <= 9,
    ensures
        has_digit(m & !digit_bit(d), e) == (has_digit(m, e) && d != e),
{
    let dd = d as u16;
    let ee = e as u16;
    assert((m & !(1u16 << dd)) & (1u16 << ee) != 0 <==> (m & (1u16 << ee) != 0 && dd != ee))
        by (bit_vector)
        requires
            1 <= dd <= 9,
            1 <= ee <= 9,
    ;
}

/// Setting or clearing the bit of a digit keeps a bit-set clean.
pub proof fn lemma_bit_clean(m: u16, d: u8)
    requires
        mask_clean(m),
        1 <= d <= 9,
    ensures
        mask_clean(m | digit_bit(d)),
        mask_clean(m & !digit_bit(d)),
{
    let dd = d as u16;
    assert((m | (1u16 << dd)) & !0x3FEu16 == 0 && (m & !(1u16 << dd)) & !0x3FEu16 == 0)
        by (bit_vector)
        requires
            m & !0x3FEu16 == 0,
            1 <= dd <= 9,
    ;
}

/// Two clean bit-sets that hold the same digits are equal.
pub proof fn lemma_mask_eq(a: u16, b: u16)
    requires
        mask_clean(a),
        mask_clean(b),
        forall|d: u8| 1 <= d <= 9 ==> #[trigger] has_digit(a, d) == has_digit(b, d),
    ensures
        a == b,
{
    assert(has_digit(a, 1u8) == has_digit(b, 1u8));
    assert(has_digit(a, 2u8) == has_digit(b, 2u8));
    assert(has_digit(a, 3u8) == has_digit(b, 3u8));
    assert(has_digit(a, 4u8) == has_digit(b, 4u8));
    assert(has_digit(a, 5u8) == has_digit(b, 5u8));
    assert(has_digit(a, 6u8) == has_digit(b, 6u8));
    assert(has_digit(a, 7u8) == has_digit(b, 7u8));
    assert(has_digit(a, 8u8) == has_digit(b, 8u8));
    assert(has_digit(a, 9u8) == has_digit(b, 9u8));
    assert(a == b) by (bit_vector)
        requires
            a & !0x3FEu16 == 0,
            b & !0x3FEu16 == 0,
            (a & (1u16 << 1u16) != 0) == (b & (1u16 << 1u16) != 0),
            (a & (1u16 << 2u16) != 0) == (b & (1u16 << 2u16) != 0),
            (a & (1u16 << 3u16) != 0) == (b & (1u16 << 3u16) != 0),
            (a & (1u16 << 4u16) != 0) == (b & (1u16 << 4u16) != 0),
            (a & (1u16 << 5u16) != 0) == (b & (1u16 << 5u16) != 0),
            (a & (1u16 << 6u16) != 0) == (b & (1u16 << 6u16) != 0),
            (a & (1u16 << 7u16) != 0) == (b & (1u16 << 7u16) != 0),
            (a & (1u16 << 8u16) != 0) == (b & (1u16 << 8u16) != 0),
            (a & (1u16 << 9u16) != 0) == (b & (1u16 << 9u16) != 0),
    ;
}

/// The bit-sets in step with a board are fixed by it.
pub proof fn lemma_masks_determined(
    b: Seq<Seq<u8>>,
    rows1: Seq<u16>,
    cols1: Seq<u16>,
    boxes1: Seq<u16>,
    rows2: Seq<u16>,
    cols2: Seq<u16>,
    boxes2: Seq<u16>,
)
    requires
        masks_match(b, rows1, cols1, boxes1),
        masks_match(b, rows2, cols2, boxes2),
    ensures
        rows1 == rows2,
        cols1 == cols2,
        boxes1 == boxes2,
{
    assert forall|u: int| 0 <= u < 9 implies #[trigger] rows1[u] == rows2[u] && cols1[u] == cols2[u]
        && boxes1[u] == boxes2[u] by {
        assert(mask_clean(rows1[u]) && mask_clean(rows2[u]));
        assert(mask_clean(cols1[u]) && mask_clean(cols2[u]));
        assert(mask_clean(boxes1[u]) && mask_clean(boxes2[u]));
        assert forall|d: u8| 1 <= d <= 9 implies #[trigger] has_digit(rows1[u], d) == has_digit(rows2[u], d) by {
            assert(has_digit(rows1[u], d) == row_has(b, u, d));
            assert(has_digit(rows2[u], d) == row_has(b, u, d));
        }
        assert forall|d: u8| 1 <= d <= 9 implies #[trigger] has_digit(cols1[u], d) == has_digit(cols2[u], d) by {
            assert(has_digit(cols1[u], d) == col_has(b, u, d));
            assert(has_digit(cols2[u], d) == col_has(b, u, d));
        }
        assert forall|d: u8| 1 <= d <= 9 implies #[trigger] has_digit(boxes1[u], d) == has_digit(boxes2[u], d) by {
            assert(has_digit(boxes1[u], d) == box_has(b, u, d));
            assert(has_digit(boxes2[u], d) == box_has(b, u, d));
        }
        lemma_mask_eq(rows1[u], rows2[u]);
        lemma_mask_eq(cols1[u], cols2[u]);
        lemma_mask_eq(boxes1[u], boxes2[u]);
    }
    assert(rows1 =~= rows2);
    assert forall|u: int| 0 <= u < 9 implies #[trigger] cols1[u] == cols2[u] by {
        assert(rows1[u] == rows2[u]);
    }
    assert forall|u: int| 0 <= u < 9 implies #[trigger] boxes1[u] == boxes2[u] by {
        assert(rows1[u] == rows2[u]);
    }
    assert(cols1 =~= cols2);
    assert(boxes1 =~= boxes2);
}

/// The empty bit-set holds no digit.
pub proof fn lemma_bit_empty(d: u8)
    requires
        1 <= d <= 9,
    ensures
        !has_digit(0u16, d),
{
    let dd = d as u16;
    assert(0u16 & (1u16 << dd) == 0) by (bit_vector);
}

/// How writing one cell changes which units hold digit `e`.
pub proof fn lemma_put_units(b: Seq<Seq<u8>>, i: int, j: int, v: u8, e: u8)
    requires
        is_grid(b),
        0 <= i < 9,
        0 <= j < 9,
    ensures
        forall|u: int|
            0 <= u < 9 && (u != i || (b[i][j] != e && v != e)) ==> row_has(put(b, i, j, v), u, e)
                == row_has(b, u, e),
        forall|u: int|
            0 <= u < 9 && (u != j || (b[i][j] != e && v != e)) ==> col_has(put(b, i, j, v), u, e)
                == col_has(b, u, e),
        forall|u: int|
            0 <= u < 9 && (u != box_of(i, j) || (b[i][j] != e && v != e)) ==> box_has(
                put(b, i, j, v),
                u,
                e,
            ) == box_has(b, u, e),
        v == e ==> row_has(put(b, i, j, v), i, e) && col_has(put(b, i, j, v), j, e) && box_has(
            put(b, i, j, v),
            box_of(i, j),
            e,
        ),
{
    let nb = put(b, i, j, v);
    assert forall|r: int, c: int| 0 <= r < 9 && 0 <= c < 9 implies #[trigger] nb[r][c] == (if r == i
        && c == j {
        v
    } else {
        b[r][c]
    }) by {}
    assert forall|u: int|
        0 <= u < 9 && (u != i || (b[i][j] != e && v != e)) implies row_has(nb, u, e) == row_has(
        b,
        u,
        e,
    ) by {
        if row_has(b, u, e) {
            let c = choose|c: int| 0 <= c < 9 && #[trigger] b[u][c] == e;
            assert(nb[u][c] == e);
        }
        if row_has(nb, u, e) {
            let c = choose|c: int| 0 <= c < 9 && #[trigger] nb[u][c] == e;
            assert(b[u][c] == e);
        }
    }
    assert forall|u: int|
        0 <= u < 9 && (u != j || (b[i][j] != e && v != e)) implies col_has(nb, u, e) == col_has(
        b,
        u,
        e,
    ) by {
        if col_has(b, u, e) {
            let r = choose|r: int| 0 <= r < 9 && #[trigger] b[r][u] == e;
            assert(nb[r][u] == e);
        }
        if col_has(nb, u, e) {
            let r = choose|r: int| 0 <= r < 9 && #[trigger] nb[r][u] == e;
            assert(b[r][u] == e);
        }
    }
    assert forall|u: int|
        0 <= u < 9 && (u != box_of(i, j) || (b[i][j] != e && v != e)) implies box_has(nb, u, e)
        == box_has(b, u, e) by {
        if box_has(b, u, e) {
            let (r, c) = choose|r: int, c: int|
                0 <= r < 9 && 0 <= c < 9 && box_of(r, c) == u && #[trigger] b[r][c] == e;
            assert(nb[r][c] == e);
        }
        if box_has(nb, u, e) {
            let (r, c) = choose|r: int, c: int|
                0 <= r < 9 && 0 <= c < 9 && box_of(r, c) == u && #[trigger] nb[r][c] == e;
            assert(b[r][c] == e);
        }
    }
    if v == e {
        assert(nb[i][j] == e);
    }
}

/// Placing digit `d` in an empty cell and setting its bit in the cell's row,
/// column and box keeps the bit-sets in step with the board.
pub proof fn lemma_place_masks(
    b: Seq<Seq<u8>>,
    rows: Seq<u16>,
    cols: Seq<u16>,
    boxes: Seq<u16>,
    i: int,
    j: int,
    d: u8,
)
    requires
        is_grid(b),
        masks_match(b, rows, cols, boxes),
        0 <= i < 9,
        0 <= j < 9,
        b[i][j] == 0,
        1 <= d <= 9,
    ensures
        masks_match(
            put(b, i, j, d),
            rows.update(i, rows[i] | digit_bit(d)),
            cols.update(j, cols[j] | digit_bit(d)),
            boxes.update(box_of(i, j), boxes[box_of(i, j)] | digit_bit(d)),
        ),
{
    let k = box_of(i, j);
    let nb = put(b, i, j, d);
    let nr = rows.update(i, rows[i] | digit_bit(d));
    let nc = cols.update(j, cols[j] | digit_bit(d));
    let nx = boxes.update(k, boxes[k] | digit_bit(d));
    lemma_bit_clean(rows[i], d);
    lemma_bit_clean(cols[j], d);
    lemma_bit_clean(boxes[k], d);
    assert forall|u: int, e: u8| 0 <= u < 9 && 1 <= e <= 9 implies {
        &&& #[trigger] has_digit(nr[u], e) == row_has(nb, u, e)
        &&& has_digit(nc[u], e) == col_has(nb, u, e)
        &&& has_digit(nx[u], e) == box_has(nb, u, e)
    } by {
        lemma_put_units(b, i, j, d, e);
        lemma_bit_insert(rows[i], d, e);
        lemma_bit_insert(cols[j], d, e);
        lemma_bit_insert(boxes[k], d, e);
    }
    assert forall|u: int, e: u8| 0 <= u < 9 && 1 <= e <= 9 implies #[trigger] has_digit(nc[u], e)
        == col_has(nb, u, e) by {
        assert(has_digit(nr[u], e) == row_has(nb, u, e));
    }
    assert forall|u: int, e: u8| 0 <= u < 9 && 1 <= e <= 9 implies #[trigger] has_digit(nx[u], e)
        == box_has(nb, u, e) by {
        assert(has_digit(nr[u], e) == row_has(nb, u, e));
    }
}

/// Emptying a cell that held a digit free of its peers, and clearing that
/// digit's bit in the cell's row, column and box, keeps the bit-sets in step.
pub proof fn lemma_unplace_masks(
    b: Seq<Seq<u8>>,
    rows: Seq<u16>,
    cols: Seq<u16>,
    boxes: Seq<u16>,
    i: int,
    j: int,
    d: u8,
)
    requires
        is_grid(b),
        masks_match(put(b, i, j, d), rows, cols, boxes),
        0 <= i < 9,
        0 <= j < 9,
        b[i][j] == 0,
        1 <= d <= 9,
        digit_free(b, i, j, d),
    ensures
        masks_match(
            b,
            rows.update(i, rows[i] & !digit_bit(d)),
            cols.update(j, cols[j] & !digit_bit(d)),
            boxes.update(box_of(i, j), boxes[box_of(i, j)] & !digit_bit(d)),
        ),
{
    let k = box_of(i, j);
    let pb = put(b, i, j, d);
    assert(put(pb, i, j, 0) =~= b) by {
        assert(pb[i].update(j, 0) =~= b[i]);
    }
    let nr = rows.update(i, rows[i] & !digit_bit(d));
    let nc = cols.update(j, cols[j] & !digit_bit(d));
    let nx = boxes.update(k, boxes[k] & !digit_bit(d));
    assert(is_grid(pb));
    lemma_bit_clean(rows[i], d);
    lemma_bit_clean(cols[j], d);
    lemma_bit_clean(boxes[k], d);
    assert forall|u: int, e: u8| 0 <= u < 9 && 1 <= e <= 9 implies {
        &&& #[trigger] has_digit(nr[u], e) == row_has(b, u, e)
        &&& has_digit(nc[u], e) == col_has(b, u, e)
        &&& has_digit(nx[u], e) == box_has(b, u, e)
    } by {
        lemma_put_units(pb, i, j, 0, e);
        lemma_bit_remove(rows[i], d, e);
        lemma_bit_remove(cols[j], d, e);
        lemma_bit_remove(boxes[k], d, e);
    }
    assert forall|u: int, e: u8| 0 <= u < 9 && 1 <= e <= 9 implies #[trigger] has_digit(nc[u], e)
        == col_has(b, u, e) by {
        assert(has_digit(nr[u], e) == row_has(b, u, e));
    }
    assert forall|u: int, e: u8| 0 <= u < 9 && 1 <= e <= 9 implies #[trigger] has_digit(nx[u], e)
        == box_has(b, u, e) by {
        assert(has_digit(nr[u], e) == row_has(b, u, e));
    }
}

} // verus!

use vstd::prelude::*;
use std::collections::BTreeSet;
use array2d::Array2D;
use crate::board::{box_of, empty_board, grid_view, is_complete_grid, is_grid, peers};
use crate::grid::{grid_cells, grid_filled, grid_get, grid_set, nine_by_nine};
use vstd::string::{StrSliceExecFns, StringExecFns};

verus! {

broadcast use vstd::std_specs::btree::group_btree_axioms, vstd::laws_cmp::group_laws_cmp;

/// The digits 1..9.
pub open spec fn all_digits() -> Set<u8> {
    Set::new(|d: u8| 1 <= d <= 9)
}

/// The digit that a set of candidates stands for: its one element when it has
/// exactly one, else 0 (not solved).
pub open spec fn solved_digit(s: Set<u8>) -> u8 {
    if s.len() == 1 {
        s.choose()
    } else {
        0
    }
}

/// The entry of a preset: its digit, or 0 for an empty cell.
pub open spec fn preset_entry(v: Option<u8>) -> u8 {
    match v {
        Some(d) => d,
        None => 0,
    }
}

/// A Sudoku board: at each cell, the set of digits that may still go there.
/// A cell whose set has exactly one digit is solved.
pub struct Sudoku {
    pub grid: Array2D<BTreeSet<u8>>,
}

impl Sudoku {
    /// The candidate set of each (row, column).
    pub open spec fn cells(&self) -> Map<(int, int), Set<u8>> {
        grid_cells(self.grid)
    }

    /// Nine rows of nine cells, each a finite set of digits 1..9.
    pub open spec fn wf(&self) -> bool {
        &&& self.cells().dom() == nine_by_nine()
        &&& forall|rc: (int, int)|
            #![trigger self.cells()[rc]]
            nine_by_nine().contains(rc) ==> self.cells()[rc].finite() && self.cells()[rc].subset_of(
                all_digits(),
            )
    }

    /// The digit at row `r`, column `c`, or 0 when that cell is not solved.
    pub open spec fn value(&self, r: int, c: int) -> u8 {
        solved_digit(self.cells()[(r, c)])
    }

    /// The board as rows of entries, 0 for an unsolved cell.
    pub open spec fn board(&self) -> Seq<Seq<u8>> {
        Seq::new(9, |r: int| Seq::new(9, |c: int| self.value(r, c)))
    }

    /// A board with no cell solved: every candidate set is empty.
    pub fn new() -> (s: Sudoku)
        ensures
            s.wf(),
            forall|rc: (int, int)| #[trigger] nine_by_nine().contains(rc) ==> s.cells()[rc] == Set::<u8>::empty(),
            forall|r: int, c: int| 0 <= r < 9 && 0 <= c < 9 ==> #[trigger] s.board()[r][c] == 0,
            s.board() == empty_board(),
    {
        let s = Sudoku { grid: grid_filled(BTreeSet::new()) };
        proof {
            assert forall|rc: (int, int)| #[trigger] nine_by_nine().contains(rc) implies s.cells()[rc].finite()
                && s.cells()[rc].subset_of(all_digits()) by {}
            assert forall|r: int, c: int| 0 <= r < 9 && 0 <= c < 9 implies #[trigger] s.board()[r][c] == 0 by {
                assert(nine_by_nine().contains((r, c)));
            }
            assert forall|r: int| 0 <= r < 9 implies #[trigger] s.board()[r] =~= empty_board()[r] by {
                assert forall|c: int| 0 <= c < 9 implies s.board()[r][c] == empty_board()[r][c] by {
                    assert(nine_by_nine().contains((r, c)));
                }
            }
            assert(s.board() =~= empty_board());
        }
        s
    }

    /// A board with the given clues solved and every other cell open to all
    /// nine digits.
    pub fn from_preset(preset: [[Option<u8>; 9]; 9]) -> (s: Sudoku)
        requires
            forall|r: int, c: int|
                0 <= r < 9 && 0 <= c < 9 && (#[trigger] preset[r][c]) is Some ==> 1 <= preset[r][c]->Some_0 <= 9,
        ensures
            s.wf(),
            forall|r: int, c: int|
                0 <= r < 9 && 0 <= c < 9 ==> #[trigger] s.cells()[(r, c)] == match preset[r][c] {
                    Some(d) => set![d],
                    None => all_digits(),
                },
            forall|r: int, c: int| 0 <= r < 9 && 0 <= c < 9 ==> #[trigger] s.board()[r][c] == preset_entry(preset[r][c]),
    {
        let mut s = Sudoku::new();
        let mut row: usize = 0;
        while row < 9
            invariant
                0 <= row <= 9,
                s.wf(),
                forall|r: int, c: int|
                    0 <= r < 9 && 0 <= c < 9 && (#[trigger] preset[r][c]) is Some ==> 1 <= preset[r][c]->Some_0 <= 9,
                forall|r: int, c: int|
                    0 <= r < row && 0 <= c < 9 ==> #[trigger] s.cells()[(r, c)] == match preset[r][c] {
                        Some(d) => set![d],
                        None => all_digits(),
                    },
            decreases 9 - row,
        {
            let mut col: usize = 0;
            while col < 9
                invariant
                    0 <= row < 9,
                    0 <= col <= 9,
                    s.wf(),
                    forall|r: int, c: int|
                        0 <= r < 9 && 0 <= c < 9 && (#[trigger] preset[r][c]) is Some ==> 1 <= preset[r][c]->Some_0 <= 9,
                    forall|r: int, c: int|
                        ((0 <= r < row && 0 <= c < 9) || (r == row && 0 <= c < col))
                            ==> #[trigger] s.cells()[(r, c)] == match preset[r][c] {
                            Some(d) => set![d],
                            None => all_digits(),
                        },
                decreases 9 - col,
            {
                let cands = match preset[row][col] {
                    Some(v) => single(v),
                    None => full_candidates(),
                };
                s.put_cell(row, col, cands);
                col += 1;
            }
            row += 1;
        }
        proof {
            assert forall|r: int, c: int| 0 <= r < 9 && 0 <= c < 9 implies #[trigger] s.board()[r][c]
                == preset_entry(preset[r][c]) by {
                lemma_all_digits_len();
                match preset[r][c] {
                    Some(d) => lemma_single_digit(d),
                    None => {},
                }
            }
        }
        s
    }

    /// Replaces the candidate set at (row, col).
    fn put_cell(&mut self, row: usize, col: usize, cands: BTreeSet<u8>)
        requires
            old(self).wf(),
            row < 9,
            col < 9,
            cands@.finite(),
            cands@.subset_of(all_digits()),
        ensures
            final(self).wf(),
            final(self).cells() == old(self).cells().insert((row as int, col as int), cands@),
    {
        assert(nine_by_nine().contains((row as int, col as int)));
        let _ = grid_set(&mut self.grid, row, col, cands);
        proof {
            assert(self.cells().dom() =~= nine_by_nine());
            assert forall|rc: (int, int)| #[trigger] nine_by_nine().contains(rc) implies self.cells()[rc].finite()
                && self.cells()[rc].subset_of(all_digits()) by {
                if rc != (row as int, col as int) {
                    assert(old(self).cells()[rc] == self.cells()[rc]);
                }
            }
        }
    }

    /// The board holding the entries of `b`: a nonzero entry is a solved
    /// cell, a zero one a cell with no candidates.
    pub fn from_board(b: &[[u8; 9]; 9]) -> (s: Sudoku)
        requires
            forall|r: int, c: int| 0 <= r < 9 && 0 <= c < 9 ==> #[trigger] b[r][c] <= 9,
        ensures
            s.wf(),
            s.board() == grid_view(*b),
    {
        let mut s = Sudoku::new();
        let mut row: usize = 0;
        while row < 9
            invariant
                0 <= row <= 9,
                s.wf(),
                forall|r: int, c: int| 0 <= r < 9 && 0 <= c < 9 ==> #[trigger] b[r][c] <= 9,
                forall|r: int, c: int|
                    0 <= r < 9 && 0 <= c < 9 ==> #[trigger] s.value(r, c) == if r < row { b[r][c] } else { 0 },
            decreases 9 - row,
        {
            let mut col: usize = 0;
            while col < 9
                invariant
                    0 <= row < 9,
                    0 <= col <= 9,
                    s.wf(),
                    forall|r: int, c: int| 0 <= r < 9 && 0 <= c < 9 ==> #[trigger] b[r][c] <= 9,
                    forall|r: int, c: int|
                        0 <= r < 9 && 0 <= c < 9 ==> #[trigger] s.value(r, c) == if r < row || (r
                            == row && c < col) {
                            b[r][c]
                        } else {
                            0
                        },
                decreases 9 - col,
            {
                let v: u8 = b[row][col];
                if v != 0 {
                    let ghost before = s;
                    s.put_cell(row, col, single(v));
                    proof {
                        lemma_single_digit(v);
                        assert forall|r: int, c: int| 0 <= r < 9 && 0 <= c < 9 && (r != row || c != col) implies
                            #[trigger] s.value(r, c) == before.value(r, c) by {
                            assert(s.cells()[(r, c)] == before.cells()[(r, c)]);
                        }
                    }
                }
                col += 1;
            }
            row += 1;
        }
        proof {
            lemma_grid_rows(b);
            assert forall|r: int| 0 <= r < 9 implies #[trigger] s.board()[r] =~= grid_view(*b)[r] by {
                assert forall|c: int| 0 <= c < 9 implies s.board()[r][c] == grid_view(*b)[r][c] by {
                    assert(s.value(r, c) == b[r][c]);
                }
            }
            assert(s.board() =~= grid_view(*b));
        }
        s
    }

    /// The digit of the cell at (row, col) when it is solved.
    pub fn get_solved_value(&self, row: usize, col: usize) -> (r: Option<u8>)
        requires
            self.wf(),
            row < 9,
            col < 9,
        ensures
            r is Some <==> self.cells()[(row as int, col as int)].len() == 1,
            r is Some ==> self.cells()[(row as int, col as int)] == set![r->Some_0],
            r is Some ==> 1 <= r->Some_0 <= 9,
            self.value(row as int, col as int) == match r {
                Some(d) => d,
                None => 0,
            },
    {
        assert(nine_by_nine().contains((row as int, col as int)));
        let cands = grid_get(&self.grid, row, col);
        let set = cands.unwrap();
        if set.len() == 1 {
            let mut d: u8 = 1;
            while d <= 9
                invariant
                    1 <= d <= 10,
                    set@ == self.cells()[(row as int, col as int)],
                    set@.len() == 1,
                    set@.finite(),
                    set@.subset_of(all_digits()),
                    forall|e: u8| 1 <= e < d ==> !set@.contains(e),
                decreases 10 - d,
            {
                if set.contains(&d) {
                    proof {
                        lemma_singleton_of(set@, d);
                    }
                    return Some(d);
                }
                d += 1;
            }
            proof {
                let e = set@.choose();
                assert(set@.contains(e));
            }
            None
        } else {
            None
        }
    }

    /// Takes `value` out of the candidates of the cell at (row, col), unless
    /// that cell is solved (or has no candidate) or lies outside the board.
    /// Returns whether the value was a candidate there.
    pub fn remove_possibility(&mut self, row: usize, col: usize, value: u8) -> (r: bool)
        requires
            old(self).wf(),
        ensures
            final(self).wf(),
            ({
                let inside = row < 9 && col < 9;
                let before = old(self).cells()[(row as int, col as int)];
                if inside && before.len() > 1 {
                    &&& final(self).cells() == old(self).cells().insert(
                        (row as int, col as int),
                        before.remove(value),
                    )
                    &&& r == before.contains(value)
                } else {
                    final(self).cells() == old(self).cells() && !r
                }
            }),
    {
        if row >= 9 || col >= 9 {
            return false;
        }
        assert(nine_by_nine().contains((row as int, col as int)));
        let cands = grid_get(&self.grid, row, col).unwrap();
        if cands.len() > 1 {
            let mut next = cands.clone();
            let removed = next.remove(&value);
            proof {
                assert(next@.subset_of(all_digits()));
            }
            self.put_cell(row, col, next);
            removed
        } else {
            false
        }
    }

    /// Sets the cell at (row, col) to the single digit `value`.
    pub fn set_cell(&mut self, row: usize, col: usize, value: u8) -> (r: Result<(), String>)
        requires
            old(self).wf(),
        ensures
            final(self).wf(),
            r is Ok <==> (row < 9 && col < 9 && 1 <= value <= 9),
            r is Ok ==> final(self).cells() == old(self).cells().insert((row as int, col as int), set![value]),
            r is Err ==> final(self).cells() == old(self).cells(),
    {
        if row >= 9 || col >= 9 {
            return Err("Invalid cell position".to_string());
        }
        if value < 1 || value > 9 {
            return Err("Value must be between 1 and 9".to_string());
        }
        self.put_cell(row, col, single(value));
        Ok(())
    }
}

impl Sudoku {
    /// Whether every row, column and box holds nine solved cells with nine
    /// different digits.
    pub fn is_solved(&self) -> (r: bool)
        requires
            self.wf(),
        ensures
            r == units_ok(self.board()),
            r == is_complete_grid(self.board()),
    {
        proof {
            self.lemma_board_entries();
            lemma_units_ok_iff_complete(self.board());
        }
        let mut u: usize = 0;
        while u < 27
            invariant
                0 <= u <= 27,
                self.wf(),
                forall|v: int| 0 <= v < u ==> #[trigger] unit_ok(self.board(), v),
            decreases 27 - u,
        {
            if !self.check_unit(u) {
                return false;
            }
            u += 1;
        }
        true
    }

    /// Whether unit `u` holds nine solved cells with nine different digits.
    fn check_unit(&self, u: usize) -> (r: bool)
        requires
            self.wf(),
            u < 27,
        ensures
            r == unit_ok(self.board(), u as int),
    {
        let ghost b = self.board();
        let mut seen: [bool; 10] = [false; 10];
        let mut m: usize = 0;
        while m < 9
            invariant
                0 <= m <= 9,
                u < 27,
                self.wf(),
                b == self.board(),
                forall|k: int| 0 <= k < m ==> #[trigger] unit_entry(b, u as int, k) != 0,
                forall|k1: int, k2: int|
                    0 <= k1 < k2 < m ==> #[trigger] unit_entry(b, u as int, k1) != #[trigger] unit_entry(
                        b,
                        u as int,
                        k2,
                    ),
                forall|d: int|
                    1 <= d <= 9 ==> #[trigger] seen@[d] == exists|k: int|
                        0 <= k < m && #[trigger] unit_entry(b, u as int, k) == d,
                forall|k: int| 0 <= k < m ==> #[trigger] unit_entry(b, u as int, k) <= 9,
            decreases 9 - m,
        {
            let (row, col) = unit_cell_exec(u, m);
            assert(unit_entry(b, u as int, m as int) == self.value(row as int, col as int));
            match self.get_solved_value(row, col) {
                None => {
                    return false;
                },
                Some(v) => {
                    if seen[v as usize] {
                        proof {
                            let k = choose|k: int| 0 <= k < m && #[trigger] unit_entry(b, u as int, k) == v;
                            assert(unit_entry(b, u as int, k) == unit_entry(b, u as int, m as int));
                        }
                        return false;
                    }
                    seen[v as usize] = true;
                    proof {
                        assert forall|d: int| 1 <= d <= 9 implies #[trigger] seen@[d] == exists|k: int|
                            0 <= k < m + 1 && #[trigger] unit_entry(b, u as int, k) == d by {
                            if d == v {
                                assert(unit_entry(b, u as int, m as int) == d);
                            } else if seen@[d] {
                                let k = choose|k: int| 0 <= k < m && #[trigger] unit_entry(b, u as int, k) == d;
                                assert(0 <= k < m + 1 && unit_entry(b, u as int, k) == d);
                            }
                        }
                    }
                },
            }
            m += 1;
        }
        true
    }
}

/// Whether a character has Unicode's `White_Space` property: tab through
/// carriage return, space, next line, no-break space, ogham space mark, the
/// spaces U+2000..U+200A, the line and paragraph separators, narrow no-break
/// space, medium mathematical space and ideographic space.
pub open spec fn whitespace(c: char) -> bool {
    let u = c as u32;
    ||| 0x09 <= u <= 0x0D
    ||| u == 0x20
    ||| u == 0x85
    ||| u == 0xA0
    ||| u == 0x1680
    ||| 0x2000 <= u <= 0x200A
    ||| u == 0x2028
    ||| u == 0x2029
    ||| u == 0x202F
    ||| u == 0x205F
    ||| u == 0x3000
}

/// Relies on `char::is_whitespace`: whether `c` has Unicode's `White_Space` property.
#[verifier::external_body]
pub(crate) fn is_white(c: char) -> (r: bool)
    ensures
        r == whitespace(c),
{
    c.is_whitespace()
}

/// The characters of `s` without the white space.
pub open spec fn cleaned(s: Seq<char>) -> Seq<char> {
    s.filter(|c: char| !whitespace(c))
}

/// A character that may stand for a cell: a digit, or '.' for an empty cell.
pub open spec fn cell_char_ok(c: char) -> bool {
    c == '.' || ('0' <= c && c <= '9')
}

/// The entry that a cell character stands for: its digit 1..9, or 0 for '.' and '0'.
pub open spec fn char_entry(c: char) -> u8 {
    if '1' <= c && c <= '9' {
        (c as u32 - '0' as u32) as u8
    } else {
        0
    }
}

/// The character that shows an entry: its digit, or '.' for an empty cell.
pub open spec fn entry_char(v: u8) -> char {
    if v == 1 {
        '1'
    } else if v == 2 {
        '2'
    } else if v == 3 {
        '3'
    } else if v == 4 {
        '4'
    } else if v == 5 {
        '5'
    } else if v == 6 {
        '6'
    } else if v == 7 {
        '7'
    } else if v == 8 {
        '8'
    } else if v == 9 {
        '9'
    } else {
        '.'
    }
}

/// The text of a board: 81 characters, row by row, '.' for an unsolved cell.
pub open spec fn board_text(b: Seq<Seq<u8>>) -> Seq<char> {
    Seq::new(81, |k: int| entry_char(b[k / 9][k % 9]))
}

/// A puzzle text is 81 cell characters once the white space is taken out.
pub open spec fn text_ok(s: Seq<char>) -> bool {
    &&& cleaned(s).len() == 81
    &&& forall|k: int| 0 <= k < 81 ==> #[trigger] cell_char_ok(cleaned(s)[k])
}

impl Sudoku {
    /// Reads a puzzle from 81 cell characters, row by row, white space aside:
    /// digits 1..9 are clues, '.' and '0' empty cells.
    pub fn from_string(s: &str) -> (r: Result<Sudoku, String>)
        ensures
            r is Ok <==> text_ok(s@),
            r is Ok ==> r->Ok_0.wf() && forall|i: int, j: int|
                0 <= i < 9 && 0 <= j < 9 ==> #[trigger] r->Ok_0.cells()[(i, j)] == if char_entry(
                    cleaned(s@)[i * 9 + j],
                ) == 0 {
                    all_digits()
                } else {
                    set![char_entry(cleaned(s@)[i * 9 + j])]
                },
            r is Ok ==> forall|i: int, j: int|
                0 <= i < 9 && 0 <= j < 9 ==> #[trigger] r->Ok_0.board()[i][j] == char_entry(
                    cleaned(s@)[i * 9 + j],
                ),
    {
        let n: usize = s.unicode_len();
        let mut chars: Vec<char> = Vec::new();
        let mut k: usize = 0;
        while k < n
            invariant
                0 <= k <= n,
                n == s@.len(),
                chars@ == cleaned(s@.subrange(0, k as int)),
            decreases n - k,
        {
            let c = s.get_char(k);
            let ghost t = s@.subrange(0, k as int + 1);
            proof {
                assert(t.drop_last() =~= s@.subrange(0, k as int));
                assert(t.last() == c);
                reveal_with_fuel(Seq::<_>::filter, 1);
                assert(t.filter(|c: char| !whitespace(c)) == if !whitespace(c) {
                    t.drop_last().filter(|c: char| !whitespace(c)).push(c)
                } else {
                    t.drop_last().filter(|c: char| !whitespace(c))
                });
            }
            if !is_white(c) {
                chars.push(c);
            }
            k += 1;
        }
        proof {
            assert(s@.subrange(0, n as int) =~= s@);
        }
        if chars.len() != 81 {
            return Err("Invalid puzzle length: expected 81 characters after removing whitespace".to_string());
        }
        let mut preset: [[Option<u8>; 9]; 9] = [[None; 9]; 9];
        let mut row: usize = 0;
        while row < 9
            invariant
                0 <= row <= 9,
                chars@ == cleaned(s@),
                chars@.len() == 81,
                forall|k: int| 0 <= k < row * 9 ==> #[trigger] cell_char_ok(chars@[k]),
                forall|i: int, j: int|
                    0 <= i < row && 0 <= j < 9 ==> #[trigger] preset[i][j] == if char_entry(chars@[i * 9 + j]) == 0 {
                        None
                    } else {
                        Some(char_entry(chars@[i * 9 + j]))
                    },
            decreases 9 - row,
        {
            let mut col: usize = 0;
            while col < 9
                invariant
                    0 <= row < 9,
                    0 <= col <= 9,
                    chars@ == cleaned(s@),
                    chars@.len() == 81,
                    forall|k: int| 0 <= k < row * 9 + col ==> #[trigger] cell_char_ok(chars@[k]),
                    forall|i: int, j: int|
                        (0 <= i < row && 0 <= j < 9) || (i == row && 0 <= j < col) ==> #[trigger] preset[i][j]
                            == if char_entry(chars@[i * 9 + j]) == 0 {
                            None
                        } else {
                            Some(char_entry(chars@[i * 9 + j]))
                        },
                decreases 9 - col,
            {
                let ch = chars[row * 9 + col];
                if ch == '.' || ch == '0' {
                    preset[row][col] = None;
                } else if '1' <= ch && ch <= '9' {
                    preset[row][col] = Some((ch as u32 - '0' as u32) as u8);
                } else {
                    proof {
                        assert(!cell_char_ok(cleaned(s@)[row * 9 + col]));
                    }
                    return Err("Invalid character: only digits 1-9, '.', or '0' are allowed".to_string());
                }
                col += 1;
            }
            row += 1;
        }
        proof {
            assert forall|i: int, j: int| 0 <= i < 9 && 0 <= j < 9 && (#[trigger] preset[i][j]) is Some implies 1
                <= preset[i][j]->Some_0 <= 9 by {
                assert(0 <= i * 9 + j < 81) by (nonlinear_arith)
                    requires
                        0 <= i < 9,
                        0 <= j < 9,
                ;
            }
        }
        let sudoku = Sudoku::from_preset(preset);
        proof {
            assert forall|i: int, j: int| 0 <= i < 9 && 0 <= j < 9 implies #[trigger] sudoku.board()[i][j]
                == char_entry(cleaned(s@)[i * 9 + j]) by {
                assert(sudoku.board()[i][j] == preset_entry(preset[i][j]));
            }
        }
        Ok(sudoku)
    }

    /// The board as 81 characters, row by row: the digit of each solved cell,
    /// '.' for the others.
    pub fn to_string(&self) -> (r: String)
        requires
            self.wf(),
        ensures
            r@ == board_text(self.board()),
    {
        let mut result = String::new();
        let mut k: usize = 0;
        while k < 81
            invariant
                0 <= k <= 81,
                self.wf(),
                result@ == board_text(self.board()).subrange(0, k as int),
            decreases 81 - k,
        {
            let row: usize = k / 9;
            let col: usize = k % 9;
            let v: u8 = match self.get_solved_value(row, col) {
                Some(d) => d,
                None => 0,
            };
            result.append(entry_text(v));
            k += 1;
            proof {
                assert(result@ =~= board_text(self.board()).subrange(0, k as int));
            }
        }
        result
    }
}

/// The text of one entry.
fn entry_text(v: u8) -> (s: &'static str)
    ensures
        s@ == seq![entry_char(v)],
{
    proof {
        reveal_strlit("1");
        reveal_strlit("2");
        reveal_strlit("3");
        reveal_strlit("4");
        reveal_strlit("5");
        reveal_strlit("6");
        reveal_strlit("7");
        reveal_strlit("8");
        reveal_strlit("9");
        reveal_strlit(".");
    }
    match v {
        1 => "1",
        2 => "2",
        3 => "3",
        4 => "4",
        5 => "5",
        6 => "6",
        7 => "7",
        8 => "8",
        9 => "9",
        _ => ".",
    }
}

impl Sudoku {
    /// The board of a well-formed Sudoku has nine rows of nine entries 0..9.
    pub proof fn lemma_board_entries(&self)
        requires
            self.wf(),
        ensures
            is_grid(self.board()),
            forall|r: int, c: int| 0 <= r < 9 && 0 <= c < 9 ==> #[trigger] self.board()[r][c] <= 9,
    {
        assert forall|r: int, c: int| 0 <= r < 9 && 0 <= c < 9 implies #[trigger] self.board()[r][c] <= 9 by {
            let s = self.cells()[(r, c)];
            assert(nine_by_nine().contains((r, c)));
            if s.len() == 1 {
                assert(s.len() != 0);
                assert(s.contains(s.choose()));
                assert(all_digits().contains(s.choose()));
            }
        }
    }
}

proof fn lemma_unit_cell_range(u: int, m: int)
    requires
        0 <= u < 27,
        0 <= m < 9,
    ensures
        0 <= unit_cell(u, m).0 < 9,
        0 <= unit_cell(u, m).1 < 9,
        u < 9 ==> unit_cell(u, m).0 == u,
        9 <= u < 18 ==> unit_cell(u, m).1 == u - 9,
        18 <= u ==> box_of(unit_cell(u, m).0, unit_cell(u, m).1) == u - 18,
{
}

/// Two different cells of one unit are peers.
proof fn lemma_unit_peers(u: int, m1: int, m2: int)
    requires
        0 <= u < 27,
        0 <= m1 < 9,
        0 <= m2 < 9,
        m1 != m2,
    ensures
        peers(unit_cell(u, m1).0, unit_cell(u, m1).1, unit_cell(u, m2).0, unit_cell(u, m2).1),
{
    lemma_unit_cell_range(u, m1);
    lemma_unit_cell_range(u, m2);
}

/// Every cell is cell `c` of row unit `r`, cell `r` of column unit `9 + c`,
/// and cell `3 * (r % 3) + c % 3` of the unit of its box.
proof fn lemma_cell_units(r: int, c: int)
    requires
        0 <= r < 9,
        0 <= c < 9,
    ensures
        unit_cell(r, c) == (r, c),
        unit_cell(9 + c, r) == (r, c),
        unit_cell(18 + box_of(r, c), 3 * (r % 3) + c % 3) == (r, c),
        0 <= 3 * (r % 3) + c % 3 < 9,
{
}

/// A board with entries 0..9 passes the check of its 27 units exactly when it
/// is a completed grid.
pub proof fn lemma_units_ok_iff_complete(b: Seq<Seq<u8>>)
    requires
        is_grid(b),
        forall|r: int, c: int| 0 <= r < 9 && 0 <= c < 9 ==> #[trigger] b[r][c] <= 9,
    ensures
        units_ok(b) == is_complete_grid(b),
{
    if units_ok(b) {
        assert forall|r: int, c: int| 0 <= r < 9 && 0 <= c < 9 implies 1 <= #[trigger] b[r][c] <= 9 by {
            lemma_cell_units(r, c);
            assert(unit_ok(b, r));
            assert(unit_entry(b, r, c) != 0);
        }
        assert forall|r1: int, c1: int, r2: int, c2: int|
            0 <= r1 < 9 && 0 <= c1 < 9 && 0 <= r2 < 9 && 0 <= c2 < 9 && peers(r1, c1, r2, c2)
                && #[trigger] b[r1][c1] != 0 implies b[r1][c1] != #[trigger] b[r2][c2] by {
            lemma_cell_units(r1, c1);
            lemma_cell_units(r2, c2);
            let (u, m1, m2) = if r1 == r2 {
                (r1, c1, c2)
            } else if c1 == c2 {
                (9 + c1, r1, r2)
            } else {
                (18 + box_of(r1, c1), 3 * (r1 % 3) + c1 % 3, 3 * (r2 % 3) + c2 % 3)
            };
            assert(unit_ok(b, u));
            assert(m1 != m2);
            if m1 < m2 {
                assert(unit_entry(b, u, m1) != unit_entry(b, u, m2));
            } else {
                assert(unit_entry(b, u, m2) != unit_entry(b, u, m1));
            }
        }
    }
    if is_complete_grid(b) {
        assert forall|u: int| 0 <= u < 27 implies #[trigger] unit_ok(b, u) by {
            assert forall|m: int| 0 <= m < 9 implies #[trigger] unit_entry(b, u, m) != 0 by {
                lemma_unit_cell_range(u, m);
            }
            assert forall|m1: int, m2: int| 0 <= m1 < m2 < 9 implies #[trigger] unit_entry(b, u, m1)
                != #[trigger] unit_entry(b, u, m2) by {
                lemma_unit_cell_range(u, m1);
                lemma_unit_cell_range(u, m2);
                lemma_unit_peers(u, m1, m2);
                let (r1, c1) = unit_cell(u, m1);
                let (r2, c2) = unit_cell(u, m2);
                assert(b[r1][c1] != 0);
            }
        }
    }
}

/// Cell `m` (0..9) of unit `u` (0..27): the rows, then the columns, then the boxes.
pub open spec fn unit_cell(u: int, m: int) -> (int, int) {
    if u < 9 {
        (u, m)
    } else if u < 18 {
        (m, u - 9)
    } else {
        (((u - 18) / 3) * 3 + m / 3, ((u - 18) % 3) * 3 + m % 3)
    }
}

/// The entry of `b` at cell `m` of unit `u`.
pub open spec fn unit_entry(b: Seq<Seq<u8>>, u: int, m: int) -> u8 {
    b[unit_cell(u, m).0][unit_cell(u, m).1]
}

/// Unit `u` of `b` has nine filled cells with nine different digits.
pub open spec fn unit_ok(b: Seq<Seq<u8>>, u: int) -> bool {
    &&& forall|m: int| 0 <= m < 9 ==> #[trigger] unit_entry(b, u, m) != 0
    &&& forall|m1: int, m2: int|
        0 <= m1 < m2 < 9 ==> #[trigger] unit_entry(b, u, m1) != #[trigger] unit_entry(b, u, m2)
}

/// All 27 units of `b` (rows, columns, boxes) are complete and free of repeats.
pub open spec fn units_ok(b: Seq<Seq<u8>>) -> bool {
    forall|u: int| 0 <= u < 27 ==> #[trigger] unit_ok(b, u)
}

fn unit_cell_exec(u: usize, m: usize) -> (r: (usize, usize))
    requires
        u < 27,
        m < 9,
    ensures
        r.0 == unit_cell(u as int, m as int).0,
        r.1 == unit_cell(u as int, m as int).1,
        r.0 < 9,
        r.1 < 9,
{
    if u < 9 {
        (u, m)
    } else if u < 18 {
        (m, u - 9)
    } else {
        (((u - 18) / 3) * 3 + m / 3, ((u - 18) % 3) * 3 + m % 3)
    }
}

impl Default for Sudoku {
    fn default() -> (s: Sudoku)
        ensures
            s.wf(),
            s.board() == empty_board(),
    {
        Sudoku::new()
    }
}

/// The candidate set holding only `v`.
fn single(v: u8) -> (s: BTreeSet<u8>)
    requires
        1 <= v <= 9,
    ensures
        s@ == set![v],
        s@.finite(),
        s@.subset_of(all_digits()),
{
    let mut s = BTreeSet::new();
    s.insert(v);
    proof {
        assert(s@ =~= set![v]);
    }
    s
}

/// The candidate set holding all nine digits.
fn full_candidates() -> (s: BTreeSet<u8>)
    ensures
        s@ == all_digits(),
        s@.finite(),
{
    let mut s = BTreeSet::new();
    let mut d: u8 = 1;
    while d <= 9
        invariant
            1 <= d <= 10,
            s@ == Set::new(|e: u8| 1 <= e < d),
            s@.finite(),
        decreases 10 - d,
    {
        s.insert(d);
        d += 1;
        proof {
            assert(s@ =~= Set::new(|e: u8| 1 <= e < d));
        }
    }
    proof {
        assert(s@ =~= all_digits());
    }
    s
}

/// A set of one element has that element as its solved digit.
pub proof fn lemma_single_digit(d: u8)
    ensures
        solved_digit(set![d]) == d,
        set![d].len() == 1,
{
    let s = set![d];
    assert(s.contains(d));
    assert(s.len() != 0);
    assert(s.contains(s.choose()));
}

/// A set of one element that holds `d` is `{d}`.
pub proof fn lemma_singleton_of(s: Set<u8>, d: u8)
    requires
        s.finite(),
        s.len() == 1,
        s.contains(d),
    ensures
        s == set![d],
        solved_digit(s) == d,
{
    let rest = s.remove(d);
    assert(rest.len() == 0);
    assert(rest =~= Set::empty()) by {
        if exists|x: u8| rest.contains(x) {
            let x = choose|x: u8| rest.contains(x);
            assert(rest.remove(x).len() + 1 == 0);
        }
    }
    assert(s =~= set![d]) by {
        assert forall|x: u8| s.contains(x) implies x == d by {
            if x != d {
                assert(rest.contains(x));
            }
        }
    }
    lemma_single_digit(d);
}

/// The nine digits are nine.
pub proof fn lemma_all_digits_len()
    ensures
        all_digits().len() == 9,
        all_digits().finite(),
{
    let s = set![1u8, 2u8, 3u8, 4u8, 5u8, 6u8, 7u8, 8u8, 9u8];
    assert(all_digits() =~= s);
    assert(s.len() == 9);
}

proof fn lemma_grid_rows(b: &[[u8; 9]; 9])
    ensures
        grid_view(*b).len() == 9,
        forall|r: int| 0 <= r < 9 ==> #[trigger] grid_view(*b)[r].len() == 9,
        forall|r: int, c: int| 0 <= r < 9 && 0 <= c < 9 ==> #[trigger] grid_view(*b)[r][c] == b[r][c],
{
}

} // verus!

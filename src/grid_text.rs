use vstd::prelude::*;
use vstd::string::StrSliceExecFns;
use crate::sudoku::{all_digits, is_white, whitespace, Sudoku};

verus! {

/// The text after the last line break of `s`: the line being read.
pub open spec fn cur_line(s: Seq<char>) -> Seq<char>
    decreases s.len(),
{
    if s.len() == 0 {
        s
    } else if s.last() == '\n' {
        Seq::empty()
    } else {
        cur_line(s.drop_last()).push(s.last())
    }
}

/// The words of a line: its maximal runs of characters that are not white space.
pub open spec fn tokens_of(l: Seq<char>) -> Seq<Seq<char>>
    decreases l.len(),
{
    if l.len() == 0 {
        Seq::empty()
    } else {
        let prev = tokens_of(l.drop_last());
        let c = l.last();
        if whitespace(c) {
            prev
        } else if l.len() > 1 && !whitespace(l.drop_last().last()) {
            prev.update(prev.len() - 1, prev.last().push(c))
        } else {
            prev.push(seq![c])
        }
    }
}

/// The words of each finished line of `s` (one that a line break ends) that
/// has any, in order.
pub open spec fn done_rows(s: Seq<char>) -> Seq<Seq<Seq<char>>>
    decreases s.len(),
{
    if s.len() == 0 {
        Seq::empty()
    } else if s.last() == '\n' && tokens_of(cur_line(s.drop_last())).len() > 0 {
        done_rows(s.drop_last()).push(tokens_of(cur_line(s.drop_last())))
    } else {
        done_rows(s.drop_last())
    }
}

/// The words of each line of `s` that has any: the rows of a grid text.
pub open spec fn text_rows(s: Seq<char>) -> Seq<Seq<Seq<char>>> {
    if tokens_of(cur_line(s)).len() > 0 {
        done_rows(s).push(tokens_of(cur_line(s)))
    } else {
        done_rows(s)
    }
}

/// Whether every character is an ASCII digit.
pub open spec fn all_ascii_digits(t: Seq<char>) -> bool {
    forall|i: int| 0 <= i < t.len() ==> '0' <= #[trigger] t[i] && t[i] <= '9'
}

/// The number that a string of ASCII digits writes.
pub open spec fn digits_value(t: Seq<char>) -> nat
    decreases t.len(),
{
    if t.len() == 0 {
        0
    } else {
        digits_value(t.drop_last()) * 10 + (t.last() as u32 - '0' as u32) as nat
    }
}

/// A word without the one leading '+' that an unsigned number may have.
pub open spec fn unsigned_part(t: Seq<char>) -> Seq<char> {
    if t.len() > 0 && t[0] == '+' {
        t.drop_first()
    } else {
        t
    }
}

/// A word of a grid text: '_' for an empty cell, or a number 1..9 as `u8`
/// parsing reads it (digits, perhaps after one '+').
pub open spec fn token_ok(t: Seq<char>) -> bool {
    t == seq!['_'] || ({
        let u = unsigned_part(t);
        u.len() > 0 && all_ascii_digits(u) && 1 <= digits_value(u) <= 9
    })
}

/// The entry a word stands for: 0 for '_', else its number.
pub open spec fn token_entry(t: Seq<char>) -> u8 {
    if t == seq!['_'] {
        0
    } else {
        digits_value(unsigned_part(t)) as u8
    }
}

/// A grid text: nine lines of nine words, blank lines aside.
pub open spec fn grid_text_ok(s: Seq<char>) -> bool {
    let rows = text_rows(s);
    &&& rows.len() == 9
    &&& forall|r: int| 0 <= r < 9 ==> (#[trigger] rows[r]).len() == 9
    &&& forall|r: int, c: int| 0 <= r < 9 && 0 <= c < 9 ==> #[trigger] token_ok(rows[r][c])
}

/// A row of a grid text: nine words, each '_' or a number 1..9.
pub open spec fn row_ok(row: Seq<Seq<char>>) -> bool {
    &&& row.len() == 9
    &&& forall|c: int| 0 <= c < 9 ==> #[trigger] token_ok(row[c])
}

/// The clue a word gives: none for '_', else its number.
pub open spec fn token_clue(t: Seq<char>) -> Option<u8> {
    if token_entry(t) == 0 {
        None
    } else {
        Some(token_entry(t))
    }
}

/// The words held in the buffers of a line being read.
pub open spec fn words_view(v: Vec<Vec<char>>) -> Seq<Seq<char>> {
    v@.map_values(|t: Vec<char>| t@)
}

proof fn lemma_tokens_nonempty(l: Seq<char>)
    requires
        l.len() > 0,
        !whitespace(l.last()),
    ensures
        tokens_of(l).len() > 0,
    decreases l.len(),
{
    if l.len() > 1 && !whitespace(l.drop_last().last()) {
        lemma_tokens_nonempty(l.drop_last());
    }
}

proof fn lemma_done_rows_grow(s: Seq<char>, n: int, m: int)
    requires
        0 <= n <= m <= s.len(),
    ensures
        done_rows(s.subrange(0, n)).len() <= done_rows(s.subrange(0, m)).len(),
        forall|r: int|
            0 <= r < done_rows(s.subrange(0, n)).len() ==> #[trigger] done_rows(s.subrange(0, m))[r]
                == done_rows(s.subrange(0, n))[r],
    decreases m - n,
{
    if n < m {
        lemma_done_rows_grow(s, n, m - 1);
        assert(s.subrange(0, m).drop_last() =~= s.subrange(0, m - 1));
    }
}

/// The rows finished within the first `n` characters begin the rows of the text.
proof fn lemma_done_rows_prefix(s: Seq<char>, n: int)
    requires
        0 <= n <= s.len(),
    ensures
        done_rows(s.subrange(0, n)).len() <= text_rows(s).len(),
        forall|r: int|
            0 <= r < done_rows(s.subrange(0, n)).len() ==> #[trigger] text_rows(s)[r] == done_rows(
                s.subrange(0, n),
            )[r],
{
    lemma_done_rows_grow(s, n, s.len() as int);
    assert(s.subrange(0, s.len() as int) =~= s);
}

/// Reads one word: `Some(0)` for '_', `Some(d)` for a number d in 1..9,
/// `None` for anything else.
fn parse_token(t: &Vec<char>) -> (r: Option<u8>)
    ensures
        r is Some <==> token_ok(t@),
        r is Some ==> r->Some_0 == token_entry(t@),
{
    if t.len() == 1 && t[0] == '_' {
        assert(t@ =~= seq!['_']);
        return Some(0);
    }
    assert(t@ != seq!['_']);
    let start: usize = if t.len() > 0 && t[0] == '+' {
        1
    } else {
        0
    };
    let ghost u = t@.subrange(start as int, t@.len() as int);
    assert(unsigned_part(t@) =~= u);
    if start >= t.len() {
        return None;
    }
    let mut val: u8 = 0;
    let mut big: bool = false;
    let mut i: usize = start;
    while i < t.len()
        invariant
            start <= i <= t@.len(),
            u == t@.subrange(start as int, t@.len() as int),
            unsigned_part(t@) == u,
            t@ != seq!['_'],
            all_ascii_digits(t@.subrange(start as int, i as int)),
            big == (digits_value(t@.subrange(start as int, i as int)) > 9),
            !big ==> val as nat == digits_value(t@.subrange(start as int, i as int)),
        decreases t@.len() - i,
    {
        let c = t[i];
        let ghost pre = t@.subrange(start as int, i as int);
        let ghost next = t@.subrange(start as int, i as int + 1);
        assert(next.drop_last() =~= pre);
        if !('0' <= c && c <= '9') {
            assert(u[i - start] == c);
            assert(!all_ascii_digits(u));
            return None;
        }
        let d: u8 = (c as u32 - '0' as u32) as u8;
        assert(digits_value(next) == digits_value(pre) * 10 + d as nat);
        if !big {
            let nv: u8 = val * 10 + d;
            if nv > 9 {
                big = true;
            } else {
                val = nv;
            }
        } else {
            assert(digits_value(pre) * 10 + d as nat >= digits_value(pre)) by (nonlinear_arith);
        }
        i += 1;
        assert forall|k: int| 0 <= k < next.len() implies '0' <= #[trigger] next[k] && next[k] <= '9' by {
            if k < pre.len() {
                assert(next[k] == pre[k]);
            }
        }
    }
    assert(t@.subrange(start as int, i as int) =~= u);
    if big || val == 0 {
        None
    } else {
        Some(val)
    }
}

/// Takes the words of a finished line as the next row of the preset: nothing
/// to do for a line without words; else it must be one of the nine rows, with
/// nine valid words.
fn take_row(words: &Vec<Vec<char>>, preset: &mut [[Option<u8>; 9]; 9], row_count: &mut usize) -> (ok: bool)
    requires
        *old(row_count) <= 9,
    ensures
        words@.len() == 0 ==> ok && *final(row_count) == *old(row_count) && *final(preset) == *old(preset),
        words@.len() > 0 ==> (ok <==> (*old(row_count) < 9 && row_ok(words_view(*words)))),
        words@.len() > 0 && ok ==> *final(row_count) == *old(row_count) + 1,
        ok ==> forall|r: int, c: int|
            0 <= r < 9 && 0 <= c < 9 && r != *old(row_count) ==> #[trigger] final(preset)[r][c] == old(preset)[r][c],
        words@.len() > 0 && ok ==> forall|c: int|
            0 <= c < 9 ==> #[trigger] final(preset)[*old(row_count) as int][c] == token_clue(
                words_view(*words)[c],
            ),
        *final(row_count) <= 9,
{
    if words.len() == 0 {
        return true;
    }
    if *row_count >= 9 || words.len() != 9 {
        return false;
    }
    let row: usize = *row_count;
    let mut c: usize = 0;
    while c < 9
        invariant
            0 <= c <= 9,
            row < 9,
            words@.len() == 9,
            forall|k: int| 0 <= k < c ==> #[trigger] token_ok(words_view(*words)[k]),
            forall|r: int, j: int|
                0 <= r < 9 && 0 <= j < 9 && r != row ==> #[trigger] preset[r][j] == old(preset)[r][j],
            forall|j: int| 0 <= j < c ==> #[trigger] preset[row as int][j] == token_clue(words_view(*words)[j]),
            *row_count == row,
        decreases 9 - c,
    {
        assert(words_view(*words)[c as int] == words@[c as int]@);
        match parse_token(&words[c]) {
            Some(v) => {
                preset[row][c] = if v == 0 {
                    None
                } else {
                    Some(v)
                };
            },
            None => {
                assert(!token_ok(words_view(*words)[c as int]));
                return false;
            },
        }
        c += 1;
    }
    *row_count = row + 1;
    true
}

impl Sudoku {
    /// Reads a grid text: nine lines of nine words separated by white space,
    /// each word a digit 1..9 or '_' for an empty cell; blank lines are
    /// passed over.
    pub fn from_grid_text(s: &str) -> (r: Result<Sudoku, String>)
        ensures
            r is Ok <==> grid_text_ok(s@),
            r is Ok ==> r->Ok_0.wf(),
            r is Ok ==> forall|i: int, j: int|
                0 <= i < 9 && 0 <= j < 9 ==> #[trigger] r->Ok_0.cells()[(i, j)] == if token_entry(
                    text_rows(s@)[i][j],
                ) == 0 {
                    all_digits()
                } else {
                    set![token_entry(text_rows(s@)[i][j])]
                },
            r is Ok ==> forall|i: int, j: int|
                0 <= i < 9 && 0 <= j < 9 ==> #[trigger] r->Ok_0.board()[i][j] == token_entry(
                    text_rows(s@)[i][j],
                ),
    {
        let n: usize = s.unicode_len();
        let mut preset: [[Option<u8>; 9]; 9] = [[None; 9]; 9];
        let mut row_count: usize = 0;
        let mut words: Vec<Vec<char>> = Vec::new();
        let mut in_word: bool = false;
        let mut k: usize = 0;
        while k < n
            invariant
                0 <= k <= n,
                n == s@.len(),
                words_view(words) == tokens_of(cur_line(s@.subrange(0, k as int))),
                in_word == (cur_line(s@.subrange(0, k as int)).len() > 0 && !whitespace(
                    cur_line(s@.subrange(0, k as int)).last(),
                )),
                row_count == done_rows(s@.subrange(0, k as int)).len(),
                row_count <= 9,
                forall|r: int| 0 <= r < row_count ==> #[trigger] row_ok(done_rows(s@.subrange(0, k as int))[r]),
                forall|r: int, c: int|
                    0 <= r < row_count && 0 <= c < 9 ==> #[trigger] preset[r][c] == token_clue(
                        done_rows(s@.subrange(0, k as int))[r][c],
                    ),
            decreases n - k,
        {
            let c = s.get_char(k);
            let ghost p = s@.subrange(0, k as int);
            let ghost q = s@.subrange(0, k as int + 1);
            proof {
                assert(q.drop_last() =~= p);
                assert(q.last() == c);
            }
            if c == '\n' {
                let ghost before = preset;
                let ghost rc0 = row_count;
                proof {
                    if tokens_of(cur_line(p)).len() > 0 {
                        assert(done_rows(q) == done_rows(p).push(tokens_of(cur_line(p))));
                    } else {
                        assert(done_rows(q) == done_rows(p));
                    }
                    assert(cur_line(q) == Seq::<char>::empty());
                }
                if !take_row(&words, &mut preset, &mut row_count) {
                    proof {
                        lemma_done_rows_prefix(s@, k as int + 1);
                        let row = tokens_of(cur_line(p));
                        assert(done_rows(q)[rc0 as int] == row);
                        let rows = text_rows(s@);
                        if grid_text_ok(s@) {
                            assert(rows[rc0 as int] == row);
                            assert(rows[rc0 as int].len() == 9);
                            assert forall|c: int| 0 <= c < 9 implies #[trigger] token_ok(row[c]) by {
                                assert(token_ok(rows[rc0 as int][c]));
                            }
                            assert(row_ok(row));
                        }
                    }
                    return Err("The text is not nine rows of nine entries (digits 1-9 or '_')".to_string());
                }
                proof {
                    assert forall|r: int| 0 <= r < row_count implies #[trigger] row_ok(done_rows(q)[r]) by {
                        if r < rc0 {
                            assert(done_rows(q)[r] == done_rows(p)[r]);
                        }
                    }
                    assert forall|r: int, c: int| 0 <= r < row_count && 0 <= c < 9 implies #[trigger] preset[r][c]
                        == token_clue(done_rows(q)[r][c]) by {
                        if r < rc0 {
                            assert(done_rows(q)[r] == done_rows(p)[r]);
                        }
                    }
                }
                words = Vec::new();
                in_word = false;
                proof {
                    assert(words_view(words) =~= Seq::<Seq<char>>::empty());
                }
            } else if is_white(c) {
                proof {
                    assert(cur_line(q) == cur_line(p).push(c));
                    assert(cur_line(q).drop_last() =~= cur_line(p));
                    assert(done_rows(q) == done_rows(p));
                }
                in_word = false;
            } else {
                proof {
                    assert(cur_line(q) == cur_line(p).push(c));
                    assert(cur_line(q).drop_last() =~= cur_line(p));
                    assert(done_rows(q) == done_rows(p));
                }
                if in_word {
                    proof {
                        lemma_tokens_nonempty(cur_line(p));
                    }
                    let ghost w0 = words_view(words);
                    let mut last = words.pop().unwrap();
                    last.push(c);
                    words.push(last);
                    proof {
                        assert(words_view(words) =~= w0.update(w0.len() - 1, w0.last().push(c)));
                    }
                } else {
                    let ghost w0 = words_view(words);
                    let mut w: Vec<char> = Vec::new();
                    w.push(c);
                    words.push(w);
                    proof {
                        assert(w@ =~= seq![c]);
                        assert(words_view(words) =~= w0.push(seq![c]));
                    }
                }
                in_word = true;
            }
            k += 1;
        }
        proof {
            assert(s@.subrange(0, n as int) =~= s@);
        }
        let ghost rc0 = row_count;
        let ghost last_row = tokens_of(cur_line(s@));
        if !take_row(&words, &mut preset, &mut row_count) {
            proof {
                let rows = text_rows(s@);
                assert(rows == done_rows(s@).push(last_row));
                if grid_text_ok(s@) {
                    assert(rows[rc0 as int] == last_row);
                    assert(rows[rc0 as int].len() == 9);
                    assert forall|c: int| 0 <= c < 9 implies #[trigger] token_ok(last_row[c]) by {
                        assert(token_ok(rows[rc0 as int][c]));
                    }
                    assert(row_ok(last_row));
                }
            }
            return Err("The text is not nine rows of nine entries (digits 1-9 or '_')".to_string());
        }
        if row_count != 9 {
            proof {
                let rows = text_rows(s@);
                if last_row.len() > 0 {
                    assert(rows == done_rows(s@).push(last_row));
                } else {
                    assert(rows == done_rows(s@));
                }
            }
            return Err("The text does not have nine rows".to_string());
        }
        proof {
            let rows = text_rows(s@);
            if last_row.len() > 0 {
                assert(rows == done_rows(s@).push(last_row));
                assert(rows[rc0 as int] == last_row);
            } else {
                assert(rows == done_rows(s@));
            }
            assert(rows.len() == 9);
            assert forall|r: int| 0 <= r < 9 implies (#[trigger] rows[r]).len() == 9 by {
                if r < rc0 {
                    assert(rows[r] == done_rows(s@)[r]);
                    assert(row_ok(done_rows(s@)[r]));
                }
            }
            assert forall|r: int, c: int| 0 <= r < 9 && 0 <= c < 9 implies #[trigger] token_ok(rows[r][c]) by {
                if r < rc0 {
                    assert(rows[r] == done_rows(s@)[r]);
                    assert(row_ok(done_rows(s@)[r]));
                }
            }
            assert forall|r: int, c: int|
                0 <= r < 9 && 0 <= c < 9 && (#[trigger] preset[r][c]) is Some implies 1 <= preset[r][c]->Some_0
                <= 9 by {
                if r < rc0 {
                    assert(rows[r] == done_rows(s@)[r]);
                    assert(row_ok(done_rows(s@)[r]));
                }
                assert(token_ok(rows[r][c]));
                assert(preset[r][c] == token_clue(rows[r][c]));
            }
        }
        let sudoku = Sudoku::from_preset(preset);
        proof {
            let rows = text_rows(s@);
            assert forall|i: int, j: int| 0 <= i < 9 && 0 <= j < 9 implies #[trigger] sudoku.board()[i][j]
                == token_entry(rows[i][j]) by {
                if i < rc0 {
                    assert(rows[i] == done_rows(s@)[i]);
                }
                assert(preset[i][j] == token_clue(rows[i][j]));
                assert(sudoku.board()[i][j] == crate::sudoku::preset_entry(preset[i][j]));
            }
            assert forall|i: int, j: int| 0 <= i < 9 && 0 <= j < 9 implies #[trigger] sudoku.cells()[(i, j)]
                == if token_entry(rows[i][j]) == 0 {
                all_digits()
            } else {
                set![token_entry(rows[i][j])]
            } by {
                if i < rc0 {
                    assert(rows[i] == done_rows(s@)[i]);
                }
                assert(preset[i][j] == token_clue(rows[i][j]));
            }
        }
        Ok(sudoku)
    }
}

} // verus!

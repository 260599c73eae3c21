//! Grids as text: reading one from the lines of a puzzle file, and showing
//! one as nine lines of digits.

use crate::grid::Sudoku;
use vstd::prelude::*;
use vstd::string::StrSliceExecFns;
use vstd::string::StringExecFns;

verus! {

/// Why a text is no grid.
#[derive(Debug, PartialEq, Eq, Clone, Copy, Structural)]
pub enum LoadError {
    /// A cell holds a character that is neither `.` nor a decimal digit.
    BadDigit,
    /// A digit stands beyond the last cell of the grid.
    OutOfGrid,
}

/// Lines 3 and 7 of a text, and characters 3 and 7 of a line, separate the
/// boxes and hold no cell.
pub open spec fn is_gap(n: int) -> bool {
    n == 3 || n == 7
}

/// The value of a decimal digit.
pub open spec fn digit_of(c: char) -> Option<u8> {
    if 48 <= c as u32 <= 57 {
        Some((c as u32 - 48) as u8)
    } else {
        None
    }
}

/// The board after character `c` was read as cell `col` of row `row`: a `.`
/// leaves the cell as it is, a digit is written into it.
pub open spec fn read_char(board: Seq<u8>, row: int, col: int, c: char) -> Result<
    Seq<u8>,
    LoadError,
> {
    if c == '.' {
        Ok(board)
    } else {
        match digit_of(c) {
            None => Err(LoadError::BadDigit),
            Some(d) => if row * 9 + col < 81 {
                Ok(board.update(row * 9 + col, d))
            } else {
                Err(LoadError::OutOfGrid)
            },
        }
    }
}

/// The board after the characters of `line` from `cn` on were read into row
/// `row`, the next cell being `col`.
pub open spec fn read_line(board: Seq<u8>, row: int, line: Seq<char>, cn: int, col: int) -> Result<
    Seq<u8>,
    LoadError,
>
    decreases line.len() - cn,
{
    if cn >= line.len() {
        Ok(board)
    } else if is_gap(cn) {
        read_line(board, row, line, cn + 1, col)
    } else {
        match read_char(board, row, col, line[cn]) {
            Err(e) => Err(e),
            Ok(next) => read_line(next, row, line, cn + 1, col + 1),
        }
    }
}

/// The board after the lines from `ln` on were read, the next row being
/// `row`. A line that could not be read (`None`) counts as a line of the
/// text and fills no row; a separator line fills none either.
pub open spec fn read_lines(board: Seq<u8>, lines: Seq<Option<Seq<char>>>, ln: int, row: int) -> Result<
    Seq<u8>,
    LoadError,
>
    decreases lines.len() - ln,
{
    if ln >= lines.len() {
        Ok(board)
    } else {
        match lines[ln] {
            None => read_lines(board, lines, ln + 1, row),
            Some(line) => if is_gap(ln) {
                read_lines(board, lines, ln + 1, row)
            } else {
                match read_line(board, row, line, 0, 0) {
                    Err(e) => Err(e),
                    Ok(next) => read_lines(next, lines, ln + 1, row + 1),
                }
            },
        }
    }
}

/// The lines of a text as sequences of characters.
pub open spec fn texts(lines: Seq<Option<String>>) -> Seq<Option<Seq<char>>> {
    Seq::new(
        lines.len(),
        |i: int|
            match lines[i] {
                Some(line) => Some(line@),
                None => None,
            },
    )
}

/// The board that a text stands for, read into an empty grid.
pub open spec fn loaded(lines: Seq<Option<Seq<char>>>) -> Result<Seq<u8>, LoadError> {
    read_lines(Seq::new(81, |k: int| 0u8), lines, 0, 0)
}

/// The character that shows digit `d`.
pub open spec fn digit_char(d: u8) -> char {
    (d + 48) as char
}

/// The character that shows what a cell holds: `.` for an empty cell.
pub open spec fn mark(d: u8) -> char {
    if d == 0 {
        '.'
    } else {
        digit_char(d)
    }
}

/// What showing cell `k` adds to the text: `.` or the digit, then a space
/// after the third and sixth cell of a row, a line end after the ninth, and
/// one more after the third and sixth row.
pub open spec fn piece(board: Seq<u8>, k: int) -> Seq<char> {
    if k % 9 == 2 || k % 9 == 5 {
        seq![mark(board[k]), ' ']
    } else if k % 9 == 8 {
        if k / 9 == 2 || k / 9 == 5 {
            seq![mark(board[k]), '\n', '\n']
        } else {
            seq![mark(board[k]), '\n']
        }
    } else {
        seq![mark(board[k])]
    }
}

/// The text that shows the first `n` cells of a board.
pub open spec fn shown(board: Seq<u8>, n: nat) -> Seq<char>
    decreases n,
{
    if n == 0 {
        Seq::empty()
    } else {
        shown(board, (n - 1) as nat) + piece(board, n - 1)
    }
}

/// How many cells stand before position `n` of a line, and how many rows
/// before line `n` of a text: the separators at 3 and 7 are not counted.
pub open spec fn cells_before(n: int) -> int {
    if n <= 3 {
        n
    } else if n <= 7 {
        n - 1
    } else {
        n - 2
    }
}

/// Row `row` of a board as a line of text: nine marks, with a space after
/// the third and the sixth.
pub open spec fn row_text(board: Seq<u8>, row: int) -> Seq<char> {
    Seq::new(
        11,
        |cn: int|
            if is_gap(cn) {
                ' '
            } else {
                mark(board[row * 9 + cells_before(cn)])
            },
    )
}

/// A board as eleven lines of text: its nine rows, with an empty line after
/// the third and the sixth.
pub open spec fn board_text(board: Seq<u8>) -> Seq<Option<Seq<char>>> {
    Seq::new(
        11,
        |ln: int|
            if is_gap(ln) {
                Some(Seq::empty())
            } else {
                Some(row_text(board, cells_before(ln)))
            },
    )
}

/// `part` holds the first `n` cells of `board`, and is empty after them.
pub open spec fn read_so_far(part: Seq<u8>, board: Seq<u8>, n: int) -> bool {
    part.len() == 81 && forall|k: int|
        0 <= k < 81 ==> #[trigger] part[k] == if k < n {
            board[k]
        } else {
            0
        }
}

proof fn lemma_row_loads(part: Seq<u8>, board: Seq<u8>, row: int, cn: int)
    requires
        board.len() == 81,
        forall|k: int| 0 <= k < 81 ==> #[trigger] board[k] <= 9,
        0 <= row < 9,
        0 <= cn <= 11,
        read_so_far(part, board, row * 9 + cells_before(cn)),
    ensures
        read_line(part, row, row_text(board, row), cn, cells_before(cn)) matches Ok(next)
            && read_so_far(next, board, row * 9 + 9),
    decreases 11 - cn,
{
    let line = row_text(board, row);
    if cn < 11 {
        if is_gap(cn) {
            lemma_row_loads(part, board, row, cn + 1);
        } else {
            let col = cells_before(cn);
            let d = board[row * 9 + col];
            assert(line[cn] == mark(d));
            let next = if d == 0 {
                part
            } else {
                part.update(row * 9 + col, d)
            };
            assert(read_char(part, row, col, line[cn]) == Ok::<Seq<u8>, LoadError>(next));
            assert(read_so_far(next, board, row * 9 + cells_before(cn + 1)));
            lemma_row_loads(next, board, row, cn + 1);
        }
    }
}

proof fn lemma_rows_load(part: Seq<u8>, board: Seq<u8>, ln: int)
    requires
        board.len() == 81,
        forall|k: int| 0 <= k < 81 ==> #[trigger] board[k] <= 9,
        0 <= ln <= 11,
        read_so_far(part, board, cells_before(ln) * 9),
    ensures
        read_lines(part, board_text(board), ln, cells_before(ln)) matches Ok(next) && read_so_far(
            next,
            board,
            81,
        ),
    decreases 11 - ln,
{
    if ln < 11 {
        if is_gap(ln) {
            lemma_rows_load(part, board, ln + 1);
        } else {
            let row = cells_before(ln);
            lemma_row_loads(part, board, row, 0);
            let next = read_line(part, row, row_text(board, row), 0, 0).unwrap();
            lemma_rows_load(next, board, ln + 1);
        }
    }
}

/// Reading the text of a board gives the board: each cell holds the digit
/// that stands at its place in the text, and is empty where a `.` stands.
pub proof fn lemma_board_text_loads(board: Seq<u8>)
    requires
        board.len() == 81,
        forall|k: int| 0 <= k < 81 ==> #[trigger] board[k] <= 9,
    ensures
        loaded(board_text(board)) == Ok::<Seq<u8>, LoadError>(board),
{
    let blank = Seq::new(81, |k: int| 0u8);
    lemma_rows_load(blank, board, 0);
    let got = loaded(board_text(board)).unwrap();
    assert(got =~= board);
}

/// The first `n` lines of a text put together, each with its line end.
pub open spec fn joined(lines: Seq<Option<Seq<char>>>, n: nat) -> Seq<char>
    decreases n,
{
    if n == 0 {
        Seq::empty()
    } else {
        joined(lines, (n - 1) as nat) + lines[n - 1].unwrap() + seq!['\n']
    }
}

proof fn lemma_row_shown(board: Seq<u8>, row: int)
    requires
        0 <= row < 9,
    ensures
        shown(board, (row * 9 + 9) as nat) == shown(board, (row * 9) as nat) + row_text(
            board,
            row,
        ) + (if row == 2 || row == 5 {
            seq!['\n', '\n']
        } else {
            seq!['\n']
        }),
{
    let k = row * 9;
    let s0 = shown(board, k as nat);
    let s3 = shown(board, (k + 3) as nat);
    let s6 = shown(board, (k + 6) as nat);
    let s9 = shown(board, (k + 9) as nat);
    let line = row_text(board, row);
    assert(s3 =~= s0 + line.subrange(0, 4)) by {
        reveal_with_fuel(shown, 4);
    }
    assert(s6 =~= s3 + line.subrange(4, 8)) by {
        reveal_with_fuel(shown, 4);
    }
    assert(s9 =~= s6 + line.subrange(8, 11) + (if row == 2 || row == 5 {
        seq!['\n', '\n']
    } else {
        seq!['\n']
    })) by {
        reveal_with_fuel(shown, 4);
    }
    assert(line =~= line.subrange(0, 4) + line.subrange(4, 8) + line.subrange(8, 11));
}

/// Showing a board gives the lines of its text, each with its line end.
pub proof fn lemma_shown_is_board_text(board: Seq<u8>)
    ensures
        shown(board, 81) == joined(board_text(board), 11),
{
    let text = board_text(board);
    let nl = seq!['\n'];
    lemma_row_shown(board, 0);
    lemma_row_shown(board, 1);
    lemma_row_shown(board, 2);
    lemma_row_shown(board, 3);
    lemma_row_shown(board, 4);
    lemma_row_shown(board, 5);
    lemma_row_shown(board, 6);
    lemma_row_shown(board, 7);
    lemma_row_shown(board, 8);
    assert(joined(text, 0) =~= shown(board, 0));
    assert(joined(text, 1) =~= shown(board, 9));
    assert(joined(text, 2) =~= shown(board, 18));
    assert(joined(text, 3) =~= shown(board, 18) + row_text(board, 2) + nl);
    assert(joined(text, 4) =~= shown(board, 27));
    assert(joined(text, 5) =~= shown(board, 36));
    assert(joined(text, 6) =~= shown(board, 45));
    assert(joined(text, 7) =~= shown(board, 45) + row_text(board, 5) + nl);
    assert(joined(text, 8) =~= shown(board, 54));
    assert(joined(text, 9) =~= shown(board, 63));
    assert(joined(text, 10) =~= shown(board, 72));
    assert(joined(text, 11) =~= shown(board, 81));
}

/// The value of a decimal digit, `None` for any other character.
pub fn decimal(c: char) -> (r: Option<u8>)
    ensures
        r == digit_of(c),
        r matches Some(d) ==> d <= 9,
{
    let v: u32 = c as u32;
    if 48 <= v && v <= 57 {
        Some((v - 48) as u8)
    } else {
        None
    }
}

/// The text of one digit.
pub fn digit_text(d: u8) -> (text: &'static str)
    requires
        1 <= d <= 9,
    ensures
        text@ == seq![digit_char(d)],
{
    proof {
        reveal_strlit("1");
        reveal_strlit("2");
        reveal_strlit("3");
        reveal_strlit("4");
        reveal_strlit("5");
        reveal_strlit("6");
        reveal_strlit("7");
        reveal_strlit("8");
        reveal_strlit("9");
    }
    let text = if d == 1 {
        "1"
    } else if d == 2 {
        "2"
    } else if d == 3 {
        "3"
    } else if d == 4 {
        "4"
    } else if d == 5 {
        "5"
    } else if d == 6 {
        "6"
    } else if d == 7 {
        "7"
    } else if d == 8 {
        "8"
    } else {
        "9"
    };
    assert(text@ =~= seq![digit_char(d)]);
    text
}

impl Sudoku {
    /// Reads a grid from the lines of a text, one character per cell: `.`
    /// for an empty cell, a digit otherwise. Lines 3 and 7, and characters
    /// 3 and 7 of each line, are separators and are passed over. A line
    /// that could not be read is given as `None`. Cells that the text does
    /// not reach stay empty.
    pub fn new(lines: &[Option<String>]) -> (r: Result<Sudoku, LoadError>)
        ensures
            match r {
                Ok(grid) => loaded(texts(lines@)) == Ok::<Seq<u8>, LoadError>(grid@),
                Err(e) => loaded(texts(lines@)) == Err::<Seq<u8>, LoadError>(e),
            },
    {
        let mut grid = Sudoku::blank();
        let mut row: usize = 0;
        let mut ln: usize = 0;
        while ln < lines.len()
            invariant
                row <= ln <= lines.len(),
                grid@.len() == 81,
                read_lines(grid@, texts(lines@), ln as int, row as int) == loaded(texts(lines@)),
            decreases lines.len() - ln,
        {
            match &lines[ln] {
                Some(line) => {
                    if ln != 3 && ln != 7 {
                        let text = line.as_str();
                        let n = text.unicode_len();
                        let ghost before = grid@;
                        let mut col: usize = 0;
                        let mut cn: usize = 0;
                        assert(texts(lines@)[ln as int] == Some(text@));
                        for c in it: text.chars()
                            invariant
                                it.seq() == text@,
                                cn == it.index(),
                                col <= cn <= n,
                                n == text@.len(),
                                grid@.len() == 81,
                                ln < lines.len(),
                                ln != 3 && ln != 7,
                                texts(lines@)[ln as int] == Some(text@),
                                read_lines(before, texts(lines@), ln as int, row as int) == loaded(
                                    texts(lines@),
                                ),
                                read_line(grid@, row as int, text@, cn as int, col as int)
                                    == read_line(before, row as int, text@, 0, 0),
                        {
                            if cn != 3 && cn != 7 {
                                if c != '.' {
                                    match decimal(c) {
                                        None => {
                                            return Err(LoadError::BadDigit);
                                        },
                                        Some(d) => {
                                            if row < 9 && col < 81 - row * 9 {
                                                grid.put(row * 9 + col, d);
                                            } else {
                                                return Err(LoadError::OutOfGrid);
                                            }
                                        },
                                    }
                                }
                                col += 1;
                            }
                            cn += 1;
                        }
                        row += 1;
                    }
                },
                None => {},
            }
            ln += 1;
        }
        Ok(grid)
    }

    /// The grid as text: nine lines of nine characters, `.` for an empty
    /// cell, with a space after the third and sixth character of a line and
    /// an empty line after the third and sixth line. The lines of this text
    /// are what `new` reads back into the same grid.
    pub fn show(&self) -> (text: String)
        ensures
            text@ == shown(self@, 81),
    {
        let mut text = String::new();
        let mut k: usize = 0;
        proof {
            reveal_strlit(".");
            reveal_strlit(" ");
            reveal_strlit("\n");
        }
        while k < 81
            invariant
                k <= 81,
                "."@ == seq!['.'],
                " "@ == seq![' '],
                "\n"@ == seq!['\n'],
                text@ == shown(self@, k as nat),
            decreases 81 - k,
        {
            let i: usize = k / 9;
            let j: usize = k % 9;
            let n = self.cell(k);
            let ghost start = text@;
            if n == 0 {
                text.append(".");
            } else {
                text.append(digit_text(n));
            }
            if j == 2 || j == 5 {
                text.append(" ");
            } else if j == 8 {
                text.append("\n");
                if i == 2 || i == 5 {
                    text.append("\n");
                }
            }
            assert(text@ =~= start + piece(self@, k as int));
            k += 1;
        }
        text
    }
}

} // verus!

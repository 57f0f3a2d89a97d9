//! Cells, board geometry and the textual board form.
use vstd::prelude::*;
use vstd::string::StringSliceAdditionalSpecFns;

verus! {

/// Number of cells on a side of the grid.
pub const SIDE: usize = 6;

/// Number of cells on the board.
pub const CELLS: usize = 36;

/// The content of one cell.
#[derive(Clone, Copy, Debug, PartialEq, Eq, Structural)]
pub enum Cell {
    Sun,
    Moon,
    Blank,
}

/// A board in row-major order: index = row * 6 + column.
pub type Board = [Cell; 36];

/// Row of a cell index.
pub open spec fn row_of(i: int) -> int {
    i / 6
}

/// Column of a cell index.
pub open spec fn col_of(i: int) -> int {
    i % 6
}

/// The `p`-th cell of a line: row `l` when `horiz`, column `l` otherwise.
pub open spec fn line_cell(horiz: bool, l: int, p: int) -> int {
    if horiz {
        l * 6 + p
    } else {
        p * 6 + l
    }
}

/// The four directions, in the order North, East, South, West.
pub open spec fn has_nbr(i: int, d: int) -> bool {
    if d == 0 {
        row_of(i) > 0
    } else if d == 1 {
        col_of(i) < 5
    } else if d == 2 {
        row_of(i) < 5
    } else {
        d == 3 && col_of(i) > 0
    }
}

/// The neighbour of cell `i` in direction `d` (meaningful when `has_nbr(i, d)`).
pub open spec fn nbr(i: int, d: int) -> int {
    if d == 0 {
        i - 6
    } else if d == 1 {
        i + 1
    } else if d == 2 {
        i + 6
    } else {
        i - 1
    }
}

/// The direction opposite to `d`.
pub open spec fn opposite(d: int) -> int {
    if d == 0 {
        2
    } else if d == 1 {
        3
    } else if d == 2 {
        0
    } else {
        1
    }
}

/// The value of a digit of the board text: 0 is Sun, 1 is Moon, 2 is Blank.
pub open spec fn cell_of_digit(b: u8) -> Option<Cell> {
    if b == 48 {
        Some(Cell::Sun)
    } else if b == 49 {
        Some(Cell::Moon)
    } else if b == 50 {
        Some(Cell::Blank)
    } else {
        None
    }
}

/// Whether a text is a well-formed board: exactly 36 digits among 0, 1, 2.
pub open spec fn is_board_text(t: Seq<u8>) -> bool {
    &&& t.len() == 36
    &&& forall|k: int| 0 <= k < 36 ==> (#[trigger] cell_of_digit(t[k])) is Some
}

/// Whether every cell of the board is filled.
pub open spec fn is_complete(b: Seq<Cell>) -> bool {
    forall|k: int| 0 <= k < b.len() ==> #[trigger] b[k] != Cell::Blank
}

/// Whether `c` keeps every filled cell of `b`.
pub open spec fn extends(c: Seq<Cell>, b: Seq<Cell>) -> bool {
    &&& c.len() == b.len()
    &&& forall|k: int| 0 <= k < b.len() && #[trigger] b[k] != Cell::Blank ==> c[k] == b[k]
}

impl Cell {
    /// The digit of this cell in the board text.
    pub open spec fn digit_spec(self) -> u8 {
        match self {
            Cell::Sun => 48,
            Cell::Moon => 49,
            Cell::Blank => 50,
        }
    }

    /// The digit of this cell in the board text (`'0'`, `'1'` or `'2'`).
    pub fn digit(self) -> (r: u8)
        ensures
            r == self.digit_spec(),
            cell_of_digit(r) == Some(self),
    {
        match self {
            Cell::Sun => 48u8,
            Cell::Moon => 49u8,
            Cell::Blank => 50u8,
        }
    }
}

/// The cell at row `r`, column `c`.
pub fn at<T: Copy>(board: &[T; 36], r: usize, c: usize) -> (v: T)
    requires
        r < 6,
        c < 6,
    ensures
        v == board@[r * 6 + c],
{
    board[r * 6 + c]
}

/// Whether row `r`, column `c` lies on the grid.
pub fn inside(r: usize, c: usize) -> (ok: bool)
    ensures
        ok == (r < 6 && c < 6),
{
    r < SIDE && c < SIDE
}

/// Reads a board from its text, one digit per cell in row-major order
/// (0 = Sun, 1 = Moon, 2 = Blank). Returns `false`, leaving `output`
/// unchanged, when the text is not exactly 36 such digits.
pub fn parse_board(input: &str, output: &mut Board) -> (ok: bool)
    ensures
        ok == is_board_text(input.spec_bytes()),
        ok ==> forall|k: int|
            0 <= k < 36 ==> cell_of_digit(input.spec_bytes()[k]) == Some(#[trigger] final(output)@[k]),
        !ok ==> *final(output) == *old(output),
{
    let bytes = input.as_bytes();
    if bytes.len() != CELLS {
        return false;
    }
    let mut cells: Board = [Cell::Blank; 36];
    let mut k: usize = 0;
    while k < CELLS
        invariant
            bytes@ == input.spec_bytes(),
            bytes@.len() == 36,
            k <= 36,
            forall|j: int| 0 <= j < k ==> cell_of_digit(bytes@[j]) == Some(#[trigger] cells@[j]),
        decreases 36 - k,
    {
        let b = bytes[k];
        let cell = if b == 48u8 {
            Cell::Sun
        } else if b == 49u8 {
            Cell::Moon
        } else if b == 50u8 {
            Cell::Blank
        } else {
            assert(!is_board_text(input.spec_bytes())) by {
                assert(cell_of_digit(bytes@[k as int]) is None);
            }
            return false;
        };
        cells[k] = cell;
        k = k + 1;
    }
    assert forall|j: int| 0 <= j < 36 implies (#[trigger] cell_of_digit(bytes@[j])) is Some by {
        assert(cell_of_digit(bytes@[j]) == Some(cells@[j]));
    }
    *output = cells;
    true
}

} // verus!

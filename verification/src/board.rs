//! The board, and a move as it is placed on it.

use crate::rules::{BOARD_CELLS, BOARD_SIZE, EMPTY};
use crate::text::from_chars;
use vstd::prelude::*;

verus! {

/// A placement, found or made: where the word starts, which way it runs, what
/// it spells, what it scores, and the rack letters it uses up.
///
/// A move with score 0 stands for "no move".
#[derive(Debug, PartialEq, Eq)]
pub struct Move {
    pub is_vertical: bool,
    pub row: usize,
    pub col: usize,
    pub letters: Vec<char>,
    pub score: u64,
    pub used: Vec<char>,
}

/// A move as mathematics.
pub struct MoveModel {
    pub is_vertical: bool,
    pub row: nat,
    pub col: nat,
    pub letters: Seq<char>,
    pub score: nat,
    pub used: Seq<char>,
}

impl MoveModel {
    /// The move to make when there is none.
    pub open spec fn none() -> MoveModel {
        MoveModel {
            is_vertical: false,
            row: 0,
            col: 0,
            letters: Seq::empty(),
            score: 0,
            used: Seq::empty(),
        }
    }

    /// Whether the word lies on the board.
    pub open spec fn fits(self) -> bool {
        if self.is_vertical {
            self.col < BOARD_SIZE && self.row + self.letters.len() <= BOARD_SIZE
        } else {
            self.row < BOARD_SIZE && self.col + self.letters.len() <= BOARD_SIZE
        }
    }

    /// Whether the word runs over the square at `row`, `col`.
    pub open spec fn covers(self, row: int, col: int) -> bool {
        if self.is_vertical {
            col == self.col && self.row <= row < self.row + self.letters.len()
        } else {
            row == self.row && self.col <= col < self.col + self.letters.len()
        }
    }

    /// The letter that the word puts on a square it covers.
    pub open spec fn letter_at(self, row: int, col: int) -> char {
        if self.is_vertical {
            self.letters[row - self.row]
        } else {
            self.letters[col - self.col]
        }
    }
}

impl View for Move {
    type V = MoveModel;

    open spec fn view(&self) -> MoveModel {
        MoveModel {
            is_vertical: self.is_vertical,
            row: self.row as nat,
            col: self.col as nat,
            letters: self.letters@,
            score: self.score as nat,
            used: self.used@,
        }
    }
}

impl Clone for Move {
    fn clone(&self) -> (copy: Move)
        ensures
            copy@ == self@,
    {
        let letters = self.letters.clone();
        let used = self.used.clone();
        assert(letters@ =~= self.letters@);
        assert(used@ =~= self.used@);
        Move {
            is_vertical: self.is_vertical,
            row: self.row,
            col: self.col,
            letters,
            score: self.score,
            used,
        }
    }
}

impl Move {
    /// The move that stands for "no move": no word, no score.
    pub fn none() -> (mv: Move)
        ensures
            mv@ == MoveModel::none(),
    {
        Move {
            is_vertical: false,
            row: 0,
            col: 0,
            letters: Vec::new(),
            score: 0,
            used: Vec::new(),
        }
    }

    /// Whether this is "no move".
    pub fn is_none(&self) -> (none: bool)
        ensures
            none == (self@.score == 0),
    {
        self.score == 0
    }

    /// Whether this move scores more than `other`. Moves are compared by
    /// their score and by nothing else.
    pub fn outscores(&self, other: &Move) -> (more: bool)
        ensures
            more == (self@.score > other@.score),
    {
        self.score > other.score
    }

    /// Whether the word lies on the board.
    pub fn fits(&self) -> (fits: bool)
        ensures
            fits == self@.fits(),
    {
        if self.is_vertical {
            self.col < BOARD_SIZE && self.row <= BOARD_SIZE && self.letters.len() <= BOARD_SIZE
                - self.row
        } else {
            self.row < BOARD_SIZE && self.col <= BOARD_SIZE && self.letters.len() <= BOARD_SIZE
                - self.col
        }
    }

    /// The word as text.
    pub fn word(&self) -> (word: String)
        ensures
            word@ == self@.letters,
    {
        from_chars(&self.letters)
    }
}

/// A grid of the board's size.
pub open spec fn grid_wf(grid: Seq<Seq<char>>) -> bool {
    &&& grid.len() == BOARD_SIZE
    &&& forall|r: int| 0 <= r < BOARD_SIZE ==> (#[trigger] grid[r]).len() == BOARD_SIZE
}

/// The grid with rows and columns exchanged.
pub open spec fn transposed(grid: Seq<Seq<char>>) -> Seq<Seq<char>> {
    Seq::new(BOARD_SIZE as nat, |r: int| Seq::new(BOARD_SIZE as nat, |c: int| grid[c][r]))
}

/// The grid after `mv` has been placed on it.
pub open spec fn with_move(grid: Seq<Seq<char>>, mv: MoveModel) -> Seq<Seq<char>> {
    Seq::new(
        BOARD_SIZE as nat,
        |r: int|
            Seq::new(
                BOARD_SIZE as nat,
                |c: int|
                    if mv.covers(r, c) {
                        mv.letter_at(r, c)
                    } else {
                        grid[r][c]
                    },
            ),
    )
}

/// Whether no square of the grid holds a letter.
pub open spec fn blank(grid: Seq<Seq<char>>) -> bool {
    forall|r: int, c: int|
        0 <= r < BOARD_SIZE && 0 <= c < BOARD_SIZE ==> (#[trigger] grid[r][c]) == EMPTY
}

/// Exchanging rows and columns twice gives the grid back.
pub proof fn lemma_transposed_twice(grid: Seq<Seq<char>>)
    requires
        grid_wf(grid),
    ensures
        transposed(transposed(grid)) == grid,
{
    let back = transposed(transposed(grid));
    assert forall|r: int| 0 <= r < BOARD_SIZE implies #[trigger] back[r] == grid[r] by {
        assert(back[r] =~= grid[r]);
    }
    assert(back =~= grid);
}

/// The 15 by 15 board. A square holds a letter or is `EMPTY`.
#[derive(Debug)]
pub struct Board {
    cells: Vec<char>,
}

impl View for Board {
    type V = Seq<Seq<char>>;

    closed spec fn view(&self) -> Seq<Seq<char>> {
        Seq::new(
            BOARD_SIZE as nat,
            |r: int| Seq::new(BOARD_SIZE as nat, |c: int| self.cells@[r * BOARD_SIZE + c]),
        )
    }
}

impl Board {
    #[verifier::type_invariant]
    spec fn inv(self) -> bool {
        self.cells@.len() == BOARD_CELLS
    }

    /// The board before the first move: every square empty.
    pub fn new() -> (board: Board)
        ensures
            grid_wf(board@),
            blank(board@),
    {
        let mut cells: Vec<char> = Vec::new();
        let mut n: usize = 0;
        while n < BOARD_CELLS
            invariant
                n <= BOARD_CELLS,
                cells@.len() == n,
                forall|i: int| 0 <= i < n ==> cells@[i] == EMPTY,
            decreases BOARD_CELLS - n,
        {
            cells.push(EMPTY);
            n += 1;
        }
        Board { cells }
    }

    /// Tells verified callers that the board has its size. Does nothing.
    pub(crate) fn sound(&self)
        ensures
            grid_wf(self@),
    {
        proof {
            use_type_invariant(self);
        }
    }

    /// What the square at `row`, `col` holds.
    pub fn get(&self, row: usize, col: usize) -> (cell: char)
        requires
            row < BOARD_SIZE,
            col < BOARD_SIZE,
        ensures
            cell == self@[row as int][col as int],
            grid_wf(self@),
    {
        proof {
            use_type_invariant(self);
        }
        self.cells[row * BOARD_SIZE + col]
    }

    /// The row `row`, left to right.
    pub fn row(&self, row: usize) -> (line: Vec<char>)
        requires
            row < BOARD_SIZE,
        ensures
            line@ == self@[row as int],
            grid_wf(self@),
    {
        proof {
            use_type_invariant(self);
        }
        let mut line: Vec<char> = Vec::new();
        let mut c: usize = 0;
        while c < BOARD_SIZE
            invariant
                c <= BOARD_SIZE,
                row < BOARD_SIZE,
                self.cells@.len() == BOARD_CELLS,
                line@.len() == c,
                forall|i: int| 0 <= i < c ==> line@[i] == self.cells@[row * BOARD_SIZE + i],
            decreases BOARD_SIZE - c,
        {
            line.push(self.cells[row * BOARD_SIZE + c]);
            c += 1;
        }
        assert(line@ =~= self@[row as int]);
        line
    }

    /// The column `col`, top to bottom.
    pub fn column(&self, col: usize) -> (line: Vec<char>)
        requires
            col < BOARD_SIZE,
        ensures
            line@ == transposed(self@)[col as int],
            grid_wf(self@),
    {
        proof {
            use_type_invariant(self);
        }
        let mut line: Vec<char> = Vec::new();
        let mut r: usize = 0;
        while r < BOARD_SIZE
            invariant
                r <= BOARD_SIZE,
                col < BOARD_SIZE,
                self.cells@.len() == BOARD_CELLS,
                line@.len() == r,
                forall|i: int| 0 <= i < r ==> line@[i] == self.cells@[i * BOARD_SIZE + col],
            decreases BOARD_SIZE - r,
        {
            line.push(self.cells[r * BOARD_SIZE + col]);
            r += 1;
        }
        assert(line@ =~= transposed(self@)[col as int]);
        line
    }

    /// The board as rows of squares.
    pub fn rows(&self) -> (rows: Vec<Vec<char>>)
        ensures
            rows@.len() == BOARD_SIZE,
            forall|r: int| 0 <= r < BOARD_SIZE ==> (#[trigger] rows@[r])@ == self@[r],
    {
        let mut rows: Vec<Vec<char>> = Vec::new();
        let mut r: usize = 0;
        while r < BOARD_SIZE
            invariant
                r <= BOARD_SIZE,
                rows@.len() == r,
                forall|i: int| 0 <= i < r ==> (#[trigger] rows@[i])@ == self@[i],
            decreases BOARD_SIZE - r,
        {
            rows.push(self.row(r));
            r += 1;
        }
        rows
    }

    /// Whether no square holds a letter.
    pub fn is_blank(&self) -> (is_blank: bool)
        ensures
            is_blank == blank(self@),
    {
        proof {
            use_type_invariant(self);
        }
        let mut i: usize = 0;
        while i < BOARD_CELLS
            invariant
                i <= BOARD_CELLS,
                self.cells@.len() == BOARD_CELLS,
                forall|j: int| 0 <= j < i ==> self.cells@[j] == EMPTY,
            decreases BOARD_CELLS - i,
        {
            if self.cells[i] != EMPTY {
                proof {
                    let r = i as int / 15;
                    let c = i as int % 15;
                    assert(self@[r][c] == self.cells@[i as int]);
                }
                return false;
            }
            i += 1;
        }
        true
    }

    /// The board with rows and columns exchanged.
    pub fn transpose(&self) -> (flipped: Board)
        ensures
            flipped@ == transposed(self@),
            grid_wf(flipped@),
    {
        proof {
            use_type_invariant(self);
        }
        let mut cells: Vec<char> = Vec::new();
        let mut n: usize = 0;
        while n < BOARD_CELLS
            invariant
                n <= BOARD_CELLS,
                self.cells@.len() == BOARD_CELLS,
                cells@.len() == n,
                forall|i: int|
                    0 <= i < n ==> cells@[i] == self.cells@[(i % 15) * BOARD_SIZE + i / 15],
            decreases BOARD_CELLS - n,
        {
            let r = n / BOARD_SIZE;
            let c = n % BOARD_SIZE;
            cells.push(self.cells[c * BOARD_SIZE + r]);
            n += 1;
        }
        let flipped = Board { cells };
        proof {
            assert forall|r: int| 0 <= r < BOARD_SIZE implies #[trigger] flipped@[r] == transposed(
                self@,
            )[r] by {
                assert forall|c: int| 0 <= c < BOARD_SIZE implies flipped@[r][c] == transposed(
                    self@,
                )[r][c] by {
                    let i = r * 15 + c;
                    assert(i % 15 == c && i / 15 == r);
                }
                assert(flipped@[r] =~= transposed(self@)[r]);
            }
            assert(flipped@ =~= transposed(self@));
        }
        flipped
    }

    /// Writes `letters` along the row `row` from the column `col` on.
    fn write_row(&mut self, row: usize, col: usize, letters: &Vec<char>)
        requires
            row < BOARD_SIZE,
            col + letters@.len() <= BOARD_SIZE,
        ensures
            final(self)@ == with_move(
                old(self)@,
                MoveModel {
                    is_vertical: false,
                    row: row as nat,
                    col: col as nat,
                    letters: letters@,
                    score: 0,
                    used: Seq::empty(),
                },
            ),
    {
        proof {
            use_type_invariant(&*self);
        }
        let ghost before = self.cells@;
        let start = row * BOARD_SIZE + col;
        let mut cells: Vec<char> = Vec::new();
        let mut k: usize = 0;
        while k < BOARD_CELLS
            invariant
                k <= BOARD_CELLS,
                row < BOARD_SIZE,
                col + letters@.len() <= BOARD_SIZE,
                start == row * 15 + col,
                self.cells@ == before,
                before.len() == BOARD_CELLS,
                cells@.len() == k,
                forall|j: int|
                    0 <= j < k ==> cells@[j] == if start <= j < start + letters@.len() {
                        letters@[j - start]
                    } else {
                        before[j]
                    },
            decreases BOARD_CELLS - k,
        {
            if start <= k && k - start < letters.len() {
                cells.push(letters[k - start]);
            } else {
                cells.push(self.cells[k]);
            }
            k += 1;
        }
        self.cells = cells;
        proof {
            let mv = MoveModel {
                is_vertical: false,
                row: row as nat,
                col: col as nat,
                letters: letters@,
                score: 0,
                used: Seq::empty(),
            };
            let want = with_move(old(self)@, mv);
            assert forall|r: int| 0 <= r < BOARD_SIZE implies #[trigger] self@[r] == want[r] by {
                assert forall|c: int| 0 <= c < BOARD_SIZE implies self@[r][c] == want[r][c] by {
                    let k = r * 15 + c;
                    assert(self@[r][c] == self.cells@[k]);
                    assert(old(self)@[r][c] == before[k]);
                }
                assert(self@[r] =~= want[r]);
            }
            assert(self@ =~= want);
        }
    }

    /// Places the word of `mv` on the board. A vertical word is written as a
    /// horizontal one on the transposed board, which is then transposed back.
    pub fn insert(&mut self, mv: &Move)
        requires
            mv@.fits(),
        ensures
            final(self)@ == with_move(old(self)@, mv@),
            grid_wf(final(self)@),
    {
        if mv.is_vertical {
            let mut flipped = self.transpose();
            flipped.write_row(mv.col, mv.row, &mv.letters);
            let back = flipped.transpose();
            proof {
                let want = with_move(old(self)@, mv@);
                assert forall|r: int| 0 <= r < BOARD_SIZE implies #[trigger] back@[r] == want[r] by {
                    assert(back@[r] =~= want[r]);
                }
                assert(back@ =~= want);
            }
            *self = back;
        } else {
            self.write_row(mv.row, mv.col, &mv.letters);
            proof {
                let want = with_move(old(self)@, mv@);
                assert forall|r: int| 0 <= r < BOARD_SIZE implies #[trigger] self@[r] == want[r] by {
                    assert(self@[r] =~= want[r]);
                }
                assert(self@ =~= want);
            }
        }
    }
}

impl Clone for Board {
    fn clone(&self) -> (copy: Board)
        ensures
            copy@ == self@,
    {
        proof {
            use_type_invariant(self);
        }
        let mut cells: Vec<char> = Vec::new();
        let mut k: usize = 0;
        while k < BOARD_CELLS
            invariant
                k <= BOARD_CELLS,
                self.cells@.len() == BOARD_CELLS,
                cells@ == self.cells@.take(k as int),
            decreases BOARD_CELLS - k,
        {
            cells.push(self.cells[k]);
            proof {
                assert(self.cells@.take(k as int + 1) =~= self.cells@.take(k as int).push(
                    self.cells@[k as int],
                ));
            }
            k += 1;
        }
        assert(cells@ =~= self.cells@);
        Board { cells }
    }
}

} // verus!

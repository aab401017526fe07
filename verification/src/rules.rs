//! The rules a game is played by: what each letter is worth, which squares
//! multiply a letter or a word, and the tiles the bag starts with. They are
//! data handed to the library, not part of it.

use vstd::prelude::*;

verus! {

/// Squares along one side of the board.
pub const BOARD_SIZE: usize = 15;

/// Squares on the board.
pub const BOARD_CELLS: usize = 225;

/// Row and column of the centre square.
pub const CENTER: usize = 7;

/// Letters on a full rack.
pub const RACK_SIZE: usize = 7;

/// What an empty square holds.
pub const EMPTY: char = '-';

/// Points added to a move that places a full rack.
pub const FULL_RACK_BONUS: u64 = 50;

/// The most a letter may be worth.
pub const MAX_LETTER_POINTS: u16 = 1000;

/// The most a square may multiply by.
pub const MAX_MULTIPLIER: u8 = 4;

/// One premium square: its place and what it multiplies by.
#[derive(Debug, Clone, Copy, PartialEq, Eq, Structural)]
pub struct Bonus {
    pub row: usize,
    pub col: usize,
    pub letter_multiplier: u8,
    pub word_multiplier: u8,
}

/// Why a set of rules was not accepted.
#[derive(Debug, Clone, Copy, PartialEq, Eq, Structural)]
pub enum RulesError {
    /// The entry of the point table at this index gives a letter more than
    /// `MAX_LETTER_POINTS`.
    PointsTooHigh(usize),
    /// The premium square at this index lies off the board, or one of its
    /// multipliers is 0 or more than `MAX_MULTIPLIER`.
    BadBonus(usize),
    /// The tile at this index is the mark of an empty square.
    BadTile(usize),
}

/// The rules as mathematics.
pub struct RulesModel {
    /// Points of every letter; 0 for a letter the table does not list.
    pub points: Map<char, nat>,
    /// Letter multiplier of each square, row by row.
    pub letter_multipliers: Seq<nat>,
    /// Word multiplier of each square, row by row.
    pub word_multipliers: Seq<nat>,
    /// The tiles a full bag holds.
    pub tiles: Seq<char>,
}

impl RulesModel {
    pub open spec fn wf(self) -> bool {
        &&& self.points.dom() == Set::<char>::full()
        &&& forall|c: char| #[trigger] self.points[c] <= MAX_LETTER_POINTS
        &&& self.letter_multipliers.len() == BOARD_CELLS
        &&& self.word_multipliers.len() == BOARD_CELLS
        &&& forall|i: int|
            0 <= i < BOARD_CELLS ==> 1 <= #[trigger] self.letter_multipliers[i] <= MAX_MULTIPLIER
        &&& forall|i: int|
            0 <= i < BOARD_CELLS ==> 1 <= #[trigger] self.word_multipliers[i] <= MAX_MULTIPLIER
        &&& forall|i: int| 0 <= i < self.tiles.len() ==> #[trigger] self.tiles[i] != EMPTY
    }

    /// What `letter` is worth.
    pub open spec fn letter_points(self, letter: char) -> nat {
        self.points[letter]
    }

    /// By how much the square at `row`, `col` multiplies a letter placed on it.
    pub open spec fn letter_multiplier(self, row: int, col: int) -> nat {
        self.letter_multipliers[row * BOARD_SIZE + col]
    }

    /// By how much the square at `row`, `col` multiplies a word placed over it.
    pub open spec fn word_multiplier(self, row: int, col: int) -> nat {
        self.word_multipliers[row * BOARD_SIZE + col]
    }
}

/// What the point table gives for `letter`: the first entry that names it
/// counts, and a letter without an entry is worth nothing.
pub open spec fn points_in(table: Seq<(char, u16)>, letter: char) -> nat
    decreases table.len(),
{
    if table.len() == 0 {
        0
    } else if table[0].0 == letter {
        table[0].1 as nat
    } else {
        points_in(table.drop_first(), letter)
    }
}

pub open spec fn points_ok(entry: (char, u16)) -> bool {
    entry.1 <= MAX_LETTER_POINTS
}

pub open spec fn bonus_ok(b: Bonus) -> bool {
    &&& b.row < BOARD_SIZE
    &&& b.col < BOARD_SIZE
    &&& 1 <= b.letter_multiplier <= MAX_MULTIPLIER
    &&& 1 <= b.word_multiplier <= MAX_MULTIPLIER
}

/// The letter multipliers of a board with the premium squares `bonuses`: 1
/// everywhere else, and a later entry for a square overrides an earlier one.
pub open spec fn letter_grid(bonuses: Seq<Bonus>) -> Seq<nat>
    decreases bonuses.len(),
{
    if bonuses.len() == 0 {
        Seq::new(BOARD_CELLS as nat, |i: int| 1nat)
    } else {
        let b = bonuses.last();
        letter_grid(bonuses.drop_last()).update(
            b.row * BOARD_SIZE + b.col,
            b.letter_multiplier as nat,
        )
    }
}

/// The word multipliers of a board with the premium squares `bonuses`.
pub open spec fn word_grid(bonuses: Seq<Bonus>) -> Seq<nat>
    decreases bonuses.len(),
{
    if bonuses.len() == 0 {
        Seq::new(BOARD_CELLS as nat, |i: int| 1nat)
    } else {
        let b = bonuses.last();
        word_grid(bonuses.drop_last()).update(b.row * BOARD_SIZE + b.col, b.word_multiplier as nat)
    }
}

/// The rules that a point table, a list of premium squares and a set of
/// tiles stand for.
pub open spec fn rules_of(table: Seq<(char, u16)>, bonuses: Seq<Bonus>, tiles: Seq<char>) -> RulesModel {
    RulesModel {
        points: Map::total(|c: char| points_in(table, c)),
        letter_multipliers: letter_grid(bonuses),
        word_multipliers: word_grid(bonuses),
        tiles,
    }
}

proof fn lemma_points_in_bound(table: Seq<(char, u16)>, letter: char)
    requires
        forall|i: int| 0 <= i < table.len() ==> points_ok(#[trigger] table[i]),
    ensures
        points_in(table, letter) <= MAX_LETTER_POINTS,
    decreases table.len(),
{
    if table.len() > 0 {
        assert(points_ok(table[0]));
        if table[0].0 != letter {
            let rest = table.drop_first();
            assert forall|i: int| 0 <= i < rest.len() implies points_ok(#[trigger] rest[i]) by {
                assert(rest[i] == table[i + 1]);
            }
            lemma_points_in_bound(rest, letter);
        }
    }
}

proof fn lemma_grids_bound(bonuses: Seq<Bonus>)
    requires
        forall|i: int| 0 <= i < bonuses.len() ==> bonus_ok(#[trigger] bonuses[i]),
    ensures
        letter_grid(bonuses).len() == BOARD_CELLS,
        word_grid(bonuses).len() == BOARD_CELLS,
        forall|i: int|
            0 <= i < BOARD_CELLS ==> 1 <= #[trigger] letter_grid(bonuses)[i] <= MAX_MULTIPLIER,
        forall|i: int| 0 <= i < BOARD_CELLS ==> 1 <= #[trigger] word_grid(bonuses)[i] <= MAX_MULTIPLIER,
    decreases bonuses.len(),
{
    if bonuses.len() > 0 {
        let rest = bonuses.drop_last();
        assert forall|i: int| 0 <= i < rest.len() implies bonus_ok(#[trigger] rest[i]) by {
            assert(rest[i] == bonuses[i]);
        }
        lemma_grids_bound(rest);
        assert(bonus_ok(bonuses[bonuses.len() - 1]));
    }
}

/// The rules of a game.
pub struct Rules {
    table: Vec<(char, u16)>,
    letter_multipliers: Vec<u8>,
    word_multipliers: Vec<u8>,
    tiles: Vec<char>,
}

pub open spec fn widen(grid: Seq<u8>) -> Seq<nat> {
    grid.map_values(|m: u8| m as nat)
}

impl View for Rules {
    type V = RulesModel;

    closed spec fn view(&self) -> RulesModel {
        RulesModel {
            points: Map::total(|c: char| points_in(self.table@, c)),
            letter_multipliers: widen(self.letter_multipliers@),
            word_multipliers: widen(self.word_multipliers@),
            tiles: self.tiles@,
        }
    }
}

impl Rules {
    #[verifier::type_invariant]
    spec fn inv(self) -> bool {
        self@.wf()
    }

    /// Makes rules of a point table, the premium squares and the tiles of a
    /// full bag, after checking each entry.
    pub fn new(table: Vec<(char, u16)>, bonuses: Vec<Bonus>, tiles: Vec<char>) -> (res: Result<
        Rules,
        RulesError,
    >)
        ensures
            match res {
                Ok(rules) => rules@ == rules_of(table@, bonuses@, tiles@) && rules@.wf(),
                Err(RulesError::PointsTooHigh(i)) => {
                    &&& i < table@.len()
                    &&& !points_ok(table@[i as int])
                    &&& forall|j: int| 0 <= j < i ==> points_ok(#[trigger] table@[j])
                },
                Err(RulesError::BadBonus(i)) => {
                    &&& forall|j: int| 0 <= j < table@.len() ==> points_ok(#[trigger] table@[j])
                    &&& i < bonuses@.len()
                    &&& !bonus_ok(bonuses@[i as int])
                    &&& forall|j: int| 0 <= j < i ==> bonus_ok(#[trigger] bonuses@[j])
                },
                Err(RulesError::BadTile(i)) => {
                    &&& forall|j: int| 0 <= j < table@.len() ==> points_ok(#[trigger] table@[j])
                    &&& forall|j: int| 0 <= j < bonuses@.len() ==> bonus_ok(#[trigger] bonuses@[j])
                    &&& i < tiles@.len()
                    &&& tiles@[i as int] == EMPTY
                    &&& forall|j: int| 0 <= j < i ==> #[trigger] tiles@[j] != EMPTY
                },
            },
    {
        let mut i: usize = 0;
        while i < table.len()
            invariant
                i <= table.len(),
                forall|j: int| 0 <= j < i ==> points_ok(#[trigger] table@[j]),
            decreases table.len() - i,
        {
            if table[i].1 > MAX_LETTER_POINTS {
                return Err(RulesError::PointsTooHigh(i));
            }
            i += 1;
        }
        let mut letter_multipliers: Vec<u8> = Vec::new();
        let mut word_multipliers: Vec<u8> = Vec::new();
        let mut n: usize = 0;
        while n < BOARD_CELLS
            invariant
                n <= BOARD_CELLS,
                letter_multipliers@.len() == n,
                word_multipliers@.len() == n,
                forall|j: int| 0 <= j < n ==> #[trigger] letter_multipliers@[j] == 1,
                forall|j: int| 0 <= j < n ==> #[trigger] word_multipliers@[j] == 1,
            decreases BOARD_CELLS - n,
        {
            letter_multipliers.push(1);
            word_multipliers.push(1);
            n += 1;
        }
        assert(widen(letter_multipliers@) =~= letter_grid(bonuses@.take(0)));
        assert(widen(word_multipliers@) =~= word_grid(bonuses@.take(0)));
        let mut k: usize = 0;
        while k < bonuses.len()
            invariant
                k <= bonuses.len(),
                forall|j: int| 0 <= j < k ==> bonus_ok(#[trigger] bonuses@[j]),
                letter_multipliers@.len() == BOARD_CELLS,
                word_multipliers@.len() == BOARD_CELLS,
                widen(letter_multipliers@) == letter_grid(bonuses@.take(k as int)),
                widen(word_multipliers@) == word_grid(bonuses@.take(k as int)),
                forall|j: int| 0 <= j < table@.len() ==> points_ok(#[trigger] table@[j]),
            decreases bonuses.len() - k,
        {
            let b = bonuses[k];
            if b.row >= BOARD_SIZE || b.col >= BOARD_SIZE || b.letter_multiplier < 1
                || b.letter_multiplier > MAX_MULTIPLIER || b.word_multiplier < 1
                || b.word_multiplier > MAX_MULTIPLIER {
                return Err(RulesError::BadBonus(k));
            }
            let at = b.row * BOARD_SIZE + b.col;
            letter_multipliers.set(at, b.letter_multiplier);
            word_multipliers.set(at, b.word_multiplier);
            proof {
                let next = bonuses@.take(k as int + 1);
                assert(next.drop_last() =~= bonuses@.take(k as int));
                assert(next.last() == b);
                assert(widen(letter_multipliers@) =~= letter_grid(next));
                assert(widen(word_multipliers@) =~= word_grid(next));
            }
            k += 1;
        }
        assert(bonuses@.take(k as int) =~= bonuses@);
        let mut t: usize = 0;
        while t < tiles.len()
            invariant
                t <= tiles.len(),
                forall|j: int| 0 <= j < t ==> #[trigger] tiles@[j] != EMPTY,
                forall|j: int| 0 <= j < table@.len() ==> points_ok(#[trigger] table@[j]),
                forall|j: int| 0 <= j < bonuses@.len() ==> bonus_ok(#[trigger] bonuses@[j]),
            decreases tiles.len() - t,
        {
            if tiles[t] == EMPTY {
                return Err(RulesError::BadTile(t));
            }
            t += 1;
        }
        proof {
            lemma_grids_bound(bonuses@);
            assert forall|c: char| #[trigger] points_in(table@, c) <= MAX_LETTER_POINTS by {
                lemma_points_in_bound(table@, c);
            }
        }
        Ok(Rules { table, letter_multipliers, word_multipliers, tiles })
    }

    /// Tells verified callers that the rules are well formed. Does nothing.
    pub(crate) fn sound(&self)
        ensures
            self@.wf(),
    {
        proof {
            use_type_invariant(self);
        }
    }

    /// What `letter` is worth: the points that the table gives it, and 0
    /// where the table does not list it.
    pub fn letter_points(&self, letter: char) -> (points: u16)
        ensures
            points == self@.letter_points(letter),
            points <= MAX_LETTER_POINTS,
            self@.wf(),
    {
        proof {
            use_type_invariant(self);
        }
        let mut i: usize = 0;
        assert(self.table@.skip(0) =~= self.table@);
        while i < self.table.len()
            invariant
                i <= self.table.len(),
                self@.wf(),
                points_in(self.table@, letter) == points_in(self.table@.skip(i as int), letter),
            decreases self.table.len() - i,
        {
            if self.table[i].0 == letter {
                assert(self@.points[letter] <= MAX_LETTER_POINTS);
                return self.table[i].1;
            }
            proof {
                assert(self.table@.skip(i as int).drop_first() =~= self.table@.skip(i as int + 1));
            }
            i += 1;
        }
        0
    }

    /// The letter and word multipliers of the square at `row`, `col`.
    pub fn multipliers(&self, row: usize, col: usize) -> (m: (u8, u8))
        requires
            row < BOARD_SIZE,
            col < BOARD_SIZE,
        ensures
            m.0 == self@.letter_multiplier(row as int, col as int),
            m.1 == self@.word_multiplier(row as int, col as int),
            1 <= m.0 <= MAX_MULTIPLIER,
            1 <= m.1 <= MAX_MULTIPLIER,
            self@.wf(),
    {
        proof {
            use_type_invariant(self);
        }
        let at = row * BOARD_SIZE + col;
        assert(self@.letter_multipliers[at as int] == self.letter_multipliers@[at as int]);
        assert(self@.word_multipliers[at as int] == self.word_multipliers@[at as int]);
        (self.letter_multipliers[at], self.word_multipliers[at])
    }

    /// The tiles of a full bag.
    pub fn tiles(&self) -> (tiles: &Vec<char>)
        ensures
            tiles@ == self@.tiles,
            self@.wf(),
    {
        proof {
            use_type_invariant(self);
        }
        &self.tiles
    }
}

} // verus!

//! What a legal placement is and what it scores, stated for one line of the
//! board read left to right. A vertical placement is a horizontal one on the
//! transposed board.

use crate::bag::letters_of;
use crate::board::{grid_wf, transposed, MoveModel};
use crate::crossword::{
    checkable, cross_points, cross_valid, cross_word, lemma_cross_points_bound, word_spans,
    MAX_CROSS_POINTS,
};
use crate::graph::DawgModel;
use crate::language::lemma_walk_concat;
use crate::text::{
    common_prefix_len, is_common_prefix_len, lemma_common_prefix_len, lemma_lex_lt_irreflexive,
    lemma_lex_lt_transitive, lex_lt,
};
use crate::rules::{
    RulesModel, BOARD_SIZE, CENTER, EMPTY, FULL_RACK_BONUS, MAX_LETTER_POINTS, MAX_MULTIPLIER,
    RACK_SIZE,
};
use vstd::prelude::*;

verus! {

/// What a word has gathered from its first letter up to some letter: the
/// points of the letters newly placed, the product of the word multipliers
/// under them, the points of the cross-words they form, whether the word
/// touches what is on the board, and the rack letters used.
pub struct Tally {
    pub base: nat,
    pub mult: nat,
    pub cross: nat,
    pub touched: bool,
    pub used: Seq<char>,
}

/// Everything a placement is judged by, but the rack: the graph, the rules,
/// the grid whose rows are the lines searched, whether that grid is the
/// transposed board, and whether the move is the first of the game.
pub struct Scene {
    pub dawg: DawgModel,
    pub rules: RulesModel,
    pub grid: Seq<Seq<char>>,
    pub vertical: bool,
    pub first: bool,
}

impl Scene {
    pub open spec fn wf(self) -> bool {
        &&& self.dawg.wf()
        &&& self.rules.wf()
        &&& grid_wf(self.grid)
    }

    /// Row and column, on the board, of the place `x` in the line `y`.
    pub open spec fn square(self, y: int, x: int) -> (int, int) {
        if self.vertical {
            (x, y)
        } else {
            (y, x)
        }
    }

    pub open spec fn occupied(self, y: int, x: int) -> bool {
        self.grid[y][x] != EMPTY
    }

    /// Whether a letter lies next to the place `x` of line `y` in one of the
    /// two neighbouring lines.
    pub open spec fn has_neighbour(self, y: int, x: int) -> bool {
        ||| y > 0 && self.grid[y - 1][x] != EMPTY
        ||| y + 1 < BOARD_SIZE && self.grid[y + 1][x] != EMPTY
    }

    /// Whether the place `x` of line `y` is empty and has no letter beside it.
    pub open spec fn lonely(self, y: int, x: int) -> bool {
        !self.occupied(y, x) && !self.has_neighbour(y, x)
    }

    /// The line across the place `x` of line `y`, with the letter `c` on it.
    pub open spec fn across(self, y: int, x: int, c: char) -> Seq<char> {
        transposed(self.grid)[x].update(y, c)
    }

    /// Whether the word that `c` forms across its line stands.
    pub open spec fn cross_valid_at(self, y: int, x: int, c: char) -> bool {
        let line = self.across(y, x, c);
        let sq = self.square(y, x);
        cross_valid(self.dawg, line, word_spans(line), y, sq.0, sq.1)
    }

    /// What the word that `c` forms across its line scores.
    pub open spec fn cross_points_at(self, y: int, x: int, c: char) -> nat {
        let sq = self.square(y, x);
        cross_points(self.rules, self.across(y, x, c), y, sq.0, sq.1)
    }

    /// Whether the letter `c` of a word may stand on the place `x` of line
    /// `y`: on an occupied square it is the letter that lies there; on an
    /// empty one it is a letter, and the word it forms across stands.
    pub open spec fn cell_ok(self, y: int, x: int, c: char) -> bool {
        if self.occupied(y, x) {
            c == self.grid[y][x]
        } else {
            c != EMPTY && (self.has_neighbour(y, x) ==> self.cross_valid_at(y, x, c))
        }
    }

    /// The tally after the letter `c` has been added on the place `x`.
    pub open spec fn step(self, t: Tally, y: int, x: int, c: char) -> Tally {
        if self.occupied(y, x) {
            Tally { touched: true, ..t }
        } else {
            let sq = self.square(y, x);
            Tally {
                base: t.base + self.rules.letter_points(c) * self.rules.letter_multiplier(
                    sq.0,
                    sq.1,
                ),
                mult: t.mult * self.rules.word_multiplier(sq.0, sq.1),
                cross: t.cross + if self.has_neighbour(y, x) {
                    self.cross_points_at(y, x, c)
                } else {
                    0
                },
                touched: t.touched || self.has_neighbour(y, x),
                used: t.used.push(c),
            }
        }
    }

    /// The tally of the word `w` placed in line `y` from the place `s` on.
    pub open spec fn tally(self, y: int, s: int, w: Seq<char>) -> Tally
        decreases w.len(),
    {
        if w.len() == 0 {
            Tally { base: 0, mult: 1, cross: 0, touched: false, used: Seq::empty() }
        } else {
            self.step(self.tally(y, s, w.drop_last()), y, s + w.len() - 1, w.last())
        }
    }

    /// Whether every letter of `w` may stand where `w` puts it.
    pub open spec fn cells_ok(self, y: int, s: int, w: Seq<char>) -> bool {
        forall|i: int| 0 <= i < w.len() ==> #[trigger] self.cell_ok(y, s + i, w[i])
    }

    /// Whether a word may begin at `s`: at the edge or after an empty square.
    pub open spec fn framed_left(self, y: int, s: int) -> bool {
        s == 0 || self.grid[y][s - 1] == EMPTY
    }

    /// Whether a word may end before `e`: at the edge or before an empty square.
    pub open spec fn framed_right(self, y: int, e: int) -> bool {
        e == BOARD_SIZE || self.grid[y][e] == EMPTY
    }

    /// Whether the word is tied to the game: the first word covers the centre
    /// square; a later one runs over a letter on the board or forms a word
    /// across.
    pub open spec fn connected(self, y: int, s: int, w: Seq<char>) -> bool {
        if self.first {
            y == CENTER && s <= CENTER < s + w.len()
        } else {
            self.tally(y, s, w).touched
        }
    }

    /// Whether `w`, placed in line `y` from `s` on with letters of `rack`, is
    /// a legal move.
    pub open spec fn legal(self, rack: Seq<char>, y: int, s: int, w: Seq<char>) -> bool {
        &&& 0 <= y < BOARD_SIZE
        &&& 0 <= s
        &&& w.len() >= 1
        &&& s + w.len() <= BOARD_SIZE
        &&& self.framed_left(y, s)
        &&& self.framed_right(y, s + w.len())
        &&& self.cells_ok(y, s, w)
        &&& self.dawg.accepts(w)
        &&& self.tally(y, s, w).used.len() >= 1
        &&& letters_of(self.tally(y, s, w).used).subset_of(letters_of(rack))
        &&& self.connected(y, s, w)
    }

    /// What `w` scores, placed in line `y` from `s` on: the points of the
    /// letters newly placed, each with the letter multiplier of its square,
    /// times the word multipliers of their squares; the points of the words
    /// formed across; and the bonus for a full rack placed.
    pub open spec fn score(self, y: int, s: int, w: Seq<char>) -> nat {
        let t = self.tally(y, s, w);
        t.base * t.mult + t.cross + if t.used.len() == RACK_SIZE {
            FULL_RACK_BONUS as nat
        } else {
            0
        }
    }

    /// The record of `w` placed in line `y` from `s` on.
    pub open spec fn move_of(self, y: int, s: int, w: Seq<char>) -> MoveModel {
        let sq = self.square(y, s);
        MoveModel {
            is_vertical: self.vertical,
            row: sq.0 as nat,
            col: sq.1 as nat,
            letters: w,
            score: self.score(y, s, w),
            used: self.tally(y, s, w).used,
        }
    }

    /// That `best` stands against `w` placed in line `y` from `s` on, where
    /// that is a legal move that scores.
    pub open spec fn outdone(
        self,
        rack: Seq<char>,
        tie: TieBreak,
        y: int,
        s: int,
        w: Seq<char>,
        best: MoveModel,
    ) -> bool {
        self.legal(rack, y, s, w) && self.score(y, s, w) > 0 ==> preferred(
            tie,
            best,
            self.move_of(y, s, w),
        )
    }
}

/// 4 to the power of `k`.
pub open spec fn pow4(k: nat) -> nat
    decreases k,
{
    if k == 0 {
        1
    } else {
        4 * pow4((k - 1) as nat)
    }
}

pub(crate) proof fn lemma_pow4_grows(a: nat, b: nat)
    requires
        a <= b,
    ensures
        1 <= pow4(a) <= pow4(b),
    decreases b,
{
    if b > 0 {
        if a < b {
            lemma_pow4_grows(a, (b - 1) as nat);
        } else {
            lemma_pow4_grows((a - 1) as nat, (b - 1) as nat);
        }
    }
}

pub(crate) proof fn lemma_pow4_board()
    ensures
        pow4(15) == 1073741824,
{
    assert(pow4(0) == 1);
    assert(pow4(1) == 4);
    assert(pow4(2) == 16);
    assert(pow4(3) == 64);
    assert(pow4(4) == 256);
    assert(pow4(5) == 1024);
    assert(pow4(6) == 4096);
    assert(pow4(7) == 16384);
    assert(pow4(8) == 65536);
    assert(pow4(9) == 262144);
    assert(pow4(10) == 1048576);
    assert(pow4(11) == 4194304);
    assert(pow4(12) == 16777216);
    assert(pow4(13) == 67108864);
    assert(pow4(14) == 268435456);
}

/// The most a letter newly placed adds to the points of its word.
pub const MAX_PLACED_POINTS: u64 = 4000;

/// The most a move can score.
pub const MAX_MOVE_SCORE: u64 = 64424510520050;

/// The tally of a word on the board stays within what its length allows.
pub(crate) proof fn lemma_tally_bounds(scene: Scene, y: int, s: int, w: Seq<char>)
    requires
        scene.wf(),
        0 <= y < BOARD_SIZE,
        0 <= s,
        s + w.len() <= BOARD_SIZE,
        scene.cells_ok(y, s, w),
    ensures
        scene.tally(y, s, w).used.len() <= w.len(),
        scene.tally(y, s, w).base <= MAX_PLACED_POINTS * scene.tally(y, s, w).used.len(),
        1 <= scene.tally(y, s, w).mult <= pow4(scene.tally(y, s, w).used.len()),
        scene.tally(y, s, w).cross <= MAX_CROSS_POINTS * scene.tally(y, s, w).used.len(),
    decreases w.len(),
{
    if w.len() > 0 {
        let d = w.drop_last();
        assert forall|i: int| 0 <= i < d.len() implies #[trigger] scene.cell_ok(y, s + i, d[i]) by {
            assert(scene.cell_ok(y, s + i, w[i]));
        }
        lemma_tally_bounds(scene, y, s, d);
        let t = scene.tally(y, s, d);
        let x = s + w.len() - 1;
        let c = w.last();
        assert(scene.cell_ok(y, s + (w.len() - 1), w[w.len() - 1]));
        if !scene.occupied(y, x) {
            let sq = scene.square(y, x);
            let at = sq.0 * 15 + sq.1;
            assert(0 <= at < 225) by (nonlinear_arith)
                requires
                    0 <= sq.0 < 15,
                    0 <= sq.1 < 15,
                    at == sq.0 * 15 + sq.1,
            ;
            let p = scene.rules.letter_points(c);
            let lm = scene.rules.letter_multiplier(sq.0, sq.1);
            let wm = scene.rules.word_multiplier(sq.0, sq.1);
            assert(scene.rules.points[c] <= MAX_LETTER_POINTS);
            assert(1 <= scene.rules.letter_multipliers[at] <= MAX_MULTIPLIER);
            assert(1 <= scene.rules.word_multipliers[at] <= MAX_MULTIPLIER);
            assert(p * lm <= 4000) by (nonlinear_arith)
                requires
                    0 <= p <= 1000,
                    1 <= lm <= 4,
            ;
            assert(1 <= t.mult * wm <= 4 * pow4(t.used.len())) by (nonlinear_arith)
                requires
                    1 <= t.mult <= pow4(t.used.len()),
                    1 <= wm <= 4,
            ;
            assert(t.used.push(c).len() == t.used.len() + 1);
            if scene.has_neighbour(y, x) {
                let line = scene.across(y, x, c);
                assert(checkable(line, y, sq.0, sq.1));
                lemma_cross_points_bound(scene.rules, line, y, sq.0, sq.1);
            }
        }
    }
}

/// No move scores more than `MAX_MOVE_SCORE`.
pub proof fn lemma_score_bound(scene: Scene, y: int, s: int, w: Seq<char>)
    requires
        scene.wf(),
        0 <= y < BOARD_SIZE,
        0 <= s,
        s + w.len() <= BOARD_SIZE,
        scene.cells_ok(y, s, w),
    ensures
        scene.score(y, s, w) <= MAX_MOVE_SCORE,
{
    lemma_tally_bounds(scene, y, s, w);
    let t = scene.tally(y, s, w);
    lemma_pow4_grows(t.used.len(), 15);
    lemma_pow4_board();
    assert(t.base * t.mult <= 60000 * 1073741824) by (nonlinear_arith)
        requires
            0 <= t.base <= 4000 * t.used.len(),
            t.used.len() <= 15,
            1 <= t.mult <= 1073741824,
    ;
    assert(t.cross <= 72000 * 15) by (nonlinear_arith)
        requires
            t.cross <= 72000 * t.used.len(),
            t.used.len() <= 15,
    ;
}

/// The letters that the beginning of a word uses are among those that the
/// whole word uses.
pub(crate) proof fn lemma_used_grows(scene: Scene, y: int, s: int, w: Seq<char>, v: Seq<char>)
    ensures
        letters_of(scene.tally(y, s, w).used).subset_of(letters_of(scene.tally(y, s, w + v).used)),
        scene.tally(y, s, w).used.len() <= scene.tally(y, s, w + v).used.len(),
        scene.tally(y, s, w).touched ==> scene.tally(y, s, w + v).touched,
    decreases v.len(),
{
    broadcast use vstd::multiset::group_multiset_axioms;

    if v.len() == 0 {
        assert(w + v =~= w);
    } else {
        let full = w + v;
        assert(full.drop_last() =~= w + v.drop_last());
        lemma_used_grows(scene, y, s, w, v.drop_last());
        let t = scene.tally(y, s, full.drop_last());
        vstd::seq_lib::to_multiset_build(t.used, full.last());
    }
}

/// The tally after one more letter.
pub(crate) proof fn lemma_tally_push(scene: Scene, y: int, s: int, w: Seq<char>, c: char)
    ensures
        scene.tally(y, s, w.push(c)) == scene.step(scene.tally(y, s, w), y, s + w.len(), c),
{
    assert(w.push(c).drop_last() =~= w);
}

/// A legal word holds its letters in legal places, and the graph has a path
/// for each of its beginnings.
pub(crate) proof fn lemma_legal_prefix(scene: Scene, rack: Seq<char>, y: int, s: int, w: Seq<char>, v: Seq<char>)
    requires
        scene.legal(rack, y, s, w + v),
    ensures
        scene.cells_ok(y, s, w),
        scene.dawg.walk(scene.dawg.root, w) is Some,
        letters_of(scene.tally(y, s, w).used).subset_of(letters_of(rack)),
        v.len() > 0 ==> scene.cell_ok(y, s + w.len(), v[0]),
        v.len() > 0 ==> scene.dawg.walk(scene.dawg.root, w.push(v[0])) is Some,
{
    broadcast use vstd::multiset::group_multiset_axioms;

    let full = w + v;
    assert forall|i: int| 0 <= i < w.len() implies #[trigger] scene.cell_ok(y, s + i, w[i]) by {
        assert(scene.cell_ok(y, s + i, full[i]));
    }
    lemma_walk_concat(scene.dawg, scene.dawg.root, w, v);
    lemma_used_grows(scene, y, s, w, v);
    if v.len() > 0 {
        assert(scene.cell_ok(y, s + w.len(), full[w.len() as int]));
        assert(w.push(v[0]) + v.drop_first() =~= full);
        lemma_walk_concat(scene.dawg, scene.dawg.root, w.push(v[0]), v.drop_first());
    }
}

/// A line with no letter in it and none in the lines beside it holds no
/// place for a word that touches the board.
pub(crate) proof fn lemma_isolated_line(scene: Scene, y: int, s: int, w: Seq<char>)
    requires
        0 <= y < BOARD_SIZE,
        0 <= s,
        s + w.len() <= BOARD_SIZE,
        forall|x: int| 0 <= x < BOARD_SIZE ==> #[trigger] scene.lonely(y, x),
    ensures
        !scene.tally(y, s, w).touched,
    decreases w.len(),
{
    if w.len() > 0 {
        lemma_isolated_line(scene, y, s, w.drop_last());
        let x = s + w.len() - 1;
        assert(scene.lonely(y, x));
    }
}

/// The scene in which a move on `board` is judged: for a vertical move the
/// transposed board.
pub open spec fn scene_of(
    dawg: DawgModel,
    rules: RulesModel,
    board: Seq<Seq<char>>,
    vertical: bool,
    first: bool,
) -> Scene {
    Scene {
        dawg,
        rules,
        grid: if vertical {
            transposed(board)
        } else {
            board
        },
        vertical,
        first,
    }
}

/// Whether `m` is a legal move on `board` with the letters of `rack`, and
/// records its own score and the letters it uses. The first move of a game is
/// horizontal.
pub open spec fn is_candidate(
    dawg: DawgModel,
    rules: RulesModel,
    board: Seq<Seq<char>>,
    rack: Seq<char>,
    first: bool,
    m: MoveModel,
) -> bool {
    let scene = scene_of(dawg, rules, board, m.is_vertical, first);
    let y = if m.is_vertical {
        m.col as int
    } else {
        m.row as int
    };
    let s = if m.is_vertical {
        m.row as int
    } else {
        m.col as int
    };
    &&& first ==> !m.is_vertical
    &&& scene.legal(rack, y, s, m.letters)
    &&& m == scene.move_of(y, s, m.letters)
}

/// Which of two moves of equal score a search keeps.
#[derive(Debug, Clone, Copy, PartialEq, Eq, Structural)]
pub enum TieBreak {
    /// The one found first.
    KeepFirst,
    /// The one found last.
    KeepLast,
}

/// The line a move lies in: its row, or its column if it is vertical.
pub open spec fn line_of(m: MoveModel) -> int {
    if m.is_vertical {
        m.col as int
    } else {
        m.row as int
    }
}

/// Where in its line a move starts.
pub open spec fn start_of(m: MoveModel) -> int {
    if m.is_vertical {
        m.row as int
    } else {
        m.col as int
    }
}

/// The order in which a search comes to the moves: horizontal moves before
/// vertical ones, then line by line, in a line by the place the word starts
/// at, and from one place in the order of words.
pub open spec fn found_before(a: MoveModel, b: MoveModel) -> bool {
    if a.is_vertical != b.is_vertical {
        !a.is_vertical
    } else if line_of(a) != line_of(b) {
        line_of(a) < line_of(b)
    } else if start_of(a) != start_of(b) {
        start_of(a) < start_of(b)
    } else {
        lex_lt(a.letters, b.letters)
    }
}

/// Whether a search that has `best` need not care for `c`: `c` scores less,
/// or it scores the same and the tie goes to `best`.
pub open spec fn preferred(tie: TieBreak, best: MoveModel, c: MoveModel) -> bool {
    ||| c.score < best.score
    ||| c.score == best.score && (c == best || match tie {
        TieBreak::KeepFirst => found_before(best, c),
        TieBreak::KeepLast => found_before(c, best),
    })
}

/// Whether `m` is the outcome of a search: a legal move that no legal move
/// outscores and that wins the tie against every legal move of its score,
/// or "no move" where no legal move scores.
pub open spec fn is_best(
    dawg: DawgModel,
    rules: RulesModel,
    board: Seq<Seq<char>>,
    rack: Seq<char>,
    first: bool,
    tie: TieBreak,
    m: MoveModel,
) -> bool {
    &&& m.score > 0 ==> is_candidate(dawg, rules, board, rack, first, m)
    &&& m.score == 0 ==> m == MoveModel::none()
    &&& forall|c: MoveModel| #[trigger]
        is_candidate(dawg, rules, board, rack, first, c) ==> c.score <= m.score && (c.score > 0
            ==> preferred(tie, m, c))
}

/// A move of no account that lies where a word `w` placed in line `y` from
/// `s` on lies: it marks a place in the order of the search.
pub open spec fn mark(vertical: bool, y: int, s: int, w: Seq<char>) -> MoveModel {
    MoveModel {
        is_vertical: vertical,
        row: if vertical {
            s as nat
        } else {
            y as nat
        },
        col: if vertical {
            y as nat
        } else {
            s as nat
        },
        letters: w,
        score: 0,
        used: Seq::empty(),
    }
}

/// Whether `m`, if it is a move, is found before any word that is placed in
/// line `y` from `s` on and begins with `w`.
pub open spec fn ahead(m: MoveModel, vertical: bool, y: int, s: int, w: Seq<char>) -> bool {
    m.score > 0 ==> found_before(m, mark(vertical, y, s, w))
}

/// Whether `m` is a word placed in line `y` from `s` on that begins with `w`.
pub open spec fn within(m: MoveModel, vertical: bool, y: int, s: int, w: Seq<char>) -> bool {
    &&& m.is_vertical == vertical
    &&& line_of(m) == y
    &&& start_of(m) == s
    &&& w.is_prefix_of(m.letters)
}

/// How the best move of a search may change: not at all, to a move of
/// higher score, or, where the last of equal moves is kept, to a later move
/// of the same score.
pub open spec fn advanced(tie: TieBreak, from: MoveModel, to: MoveModel) -> bool {
    ||| to == from
    ||| to.score > from.score
    ||| tie == TieBreak::KeepLast && to.score == from.score && found_before(from, to)
}

/// The order of the search is transitive.
pub proof fn lemma_found_before_transitive(a: MoveModel, b: MoveModel, c: MoveModel)
    requires
        found_before(a, b),
        found_before(b, c),
    ensures
        found_before(a, c),
{
    if a.is_vertical == b.is_vertical && b.is_vertical == c.is_vertical && line_of(a) == line_of(b)
        && line_of(b) == line_of(c) && start_of(a) == start_of(b) && start_of(b) == start_of(c) {
        lemma_lex_lt_transitive(a.letters, b.letters, c.letters);
    }
}

/// No move is found before itself, and of two moves not both are found
/// before the other.
pub proof fn lemma_found_before_asymmetric(a: MoveModel, b: MoveModel)
    requires
        found_before(a, b),
    ensures
        !found_before(b, a),
{
    if found_before(b, a) {
        lemma_found_before_transitive(a, b, a);
        lemma_lex_lt_irreflexive(a.letters);
    }
}

/// A change of the best move, and another after it, are one change.
pub(crate) proof fn lemma_advanced_twice(tie: TieBreak, a: MoveModel, b: MoveModel, c: MoveModel)
    requires
        advanced(tie, a, b),
        advanced(tie, b, c),
    ensures
        advanced(tie, a, c),
{
    if found_before(a, b) && found_before(b, c) {
        lemma_found_before_transitive(a, b, c);
    }
}

/// What the best move stood against, the move it changes to stands against.
pub(crate) proof fn lemma_preferred_carries(tie: TieBreak, a: MoveModel, b: MoveModel, c: MoveModel)
    requires
        preferred(tie, a, c),
        advanced(tie, a, b),
    ensures
        preferred(tie, b, c),
{
    if tie == TieBreak::KeepLast && found_before(c, a) && found_before(a, b) {
        lemma_found_before_transitive(c, a, b);
    }
}

/// A word comes before each of its extensions, and what comes before a
/// word comes before its extensions.
pub(crate) proof fn lemma_lex_lt_extension(u: Seq<char>, w: Seq<char>, v: Seq<char>)
    ensures
        v.len() > 0 ==> lex_lt(w, w + v),
        lex_lt(u, w) ==> lex_lt(u, w + v),
{
    lemma_common_prefix_len(w, w + v);
    assert(is_common_prefix_len(w, w + v, w.len() as int));
    if lex_lt(u, w) {
        lemma_common_prefix_len(u, w);
        lemma_common_prefix_len(u, w + v);
        let k = common_prefix_len(u, w) as int;
        assert forall|j: int| 0 <= j < k implies u[j] == (w + v)[j] by {
            assert(u[j] == w[j]);
        }
        if k < w.len() {
            assert((w + v)[k] == w[k]);
        }
        assert(is_common_prefix_len(u, w + v, k));
    }
}

/// A word that begins with `w` and goes on with `c` comes before every word
/// that begins with `w` and goes on with a greater letter.
pub(crate) proof fn lemma_lex_lt_sibling(w: Seq<char>, c: char, d: char, u: Seq<char>, v: Seq<char>)
    requires
        c < d,
        w.push(c).is_prefix_of(u),
    ensures
        lex_lt(u, w.push(d) + v),
{
    let other = w.push(d) + v;
    lemma_common_prefix_len(u, other);
    let n = w.len() as int;
    assert(u.subrange(0, n + 1) =~= w.push(c));
    assert forall|j: int| 0 <= j < n implies u[j] == other[j] by {
        assert(u.subrange(0, n + 1)[j] == w.push(c)[j]);
    }
    assert(u[n] == c) by {
        assert(u.subrange(0, n + 1)[n] == w.push(c)[n]);
    }
    assert(other[w.len() as int] == d);
    assert(is_common_prefix_len(u, other, w.len() as int));
}

/// A legal move spells a word of the graph, and so does every word that one
/// of its new letters forms across.
pub proof fn lemma_candidate_words_accepted(
    dawg: DawgModel,
    rules: RulesModel,
    board: Seq<Seq<char>>,
    rack: Seq<char>,
    first: bool,
    m: MoveModel,
    i: int,
)
    requires
        is_candidate(dawg, rules, board, rack, first, m),
        0 <= i < m.letters.len(),
    ensures
        dawg.accepts(m.letters),
        ({
            let scene = scene_of(dawg, rules, board, m.is_vertical, first);
            let y = if m.is_vertical {
                m.col as int
            } else {
                m.row as int
            };
            let x = if m.is_vertical {
                m.row as int + i
            } else {
                m.col as int + i
            };
            !scene.occupied(y, x) && scene.has_neighbour(y, x) ==> dawg.accepts(
                cross_word(scene.across(y, x, m.letters[i]), y),
            )
        }),
{
    let scene = scene_of(dawg, rules, board, m.is_vertical, first);
    let y = if m.is_vertical {
        m.col as int
    } else {
        m.row as int
    };
    let s = if m.is_vertical {
        m.row as int
    } else {
        m.col as int
    };
    assert(scene.cell_ok(y, s + i, m.letters[i]));
}

/// What a search finds, where it finds a move, is a word of the graph that
/// lies on the board and is made of letters of the rack.
pub proof fn lemma_best_is_word(
    dawg: DawgModel,
    rules: RulesModel,
    board: Seq<Seq<char>>,
    rack: Seq<char>,
    first: bool,
    tie: TieBreak,
    m: MoveModel,
)
    requires
        is_best(dawg, rules, board, rack, first, tie, m),
        m.score > 0,
    ensures
        dawg.accepts(m.letters),
        m.fits(),
        m.used.len() >= 1,
        letters_of(m.used).subset_of(letters_of(rack)),
{
}

/// A search has one outcome: two moves that are both the best for the same
/// board, rack and tie-break are the same move.
pub proof fn lemma_best_is_unique(
    dawg: DawgModel,
    rules: RulesModel,
    board: Seq<Seq<char>>,
    rack: Seq<char>,
    first: bool,
    tie: TieBreak,
    a: MoveModel,
    b: MoveModel,
)
    requires
        is_best(dawg, rules, board, rack, first, tie, a),
        is_best(dawg, rules, board, rack, first, tie, b),
    ensures
        a == b,
{
    if a.score > 0 {
        assert(is_candidate(dawg, rules, board, rack, first, a));
        assert(b.score >= a.score);
        assert(is_candidate(dawg, rules, board, rack, first, b));
        assert(preferred(tie, a, b));
        assert(preferred(tie, b, a));
        if a != b {
            if found_before(a, b) {
                lemma_found_before_asymmetric(a, b);
            }
        }
    } else if b.score > 0 {
        assert(is_candidate(dawg, rules, board, rack, first, b));
    }
}

} // verus!

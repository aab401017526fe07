//! The search for the best move: a walk through the graph in step with the
//! squares of a line, for every line and both directions.

use crate::bag::{letters_of, position};
use crate::board::{grid_wf, transposed, Board, Move, MoveModel};
use crate::crossword::check_crossword;
use crate::graph::{lists_transitions, Dawg};
use crate::language::lemma_walk_push;
use crate::placement::{
    advanced, ahead, found_before, is_best, is_candidate, lemma_advanced_twice,
    lemma_isolated_line, lemma_legal_prefix, lemma_lex_lt_extension, lemma_lex_lt_sibling,
    lemma_pow4_board, lemma_pow4_grows, lemma_preferred_carries, lemma_tally_bounds,
    lemma_tally_push, line_of, pow4, preferred, scene_of, within, Scene, TieBreak,
    MAX_MOVE_SCORE,
};
use crate::rules::{Rules, BOARD_SIZE, CENTER, EMPTY, FULL_RACK_BONUS, RACK_SIZE};
use vstd::multiset::Multiset;
use vstd::prelude::*;

verus! {

/// What stays the same while one line is searched.
struct Line<'a> {
    dawg: &'a Dawg,
    rules: &'a Rules,
    grid: &'a Board,
    vertical: bool,
    first: bool,
    y: usize,
    tie: TieBreak,
}

impl<'a> Line<'a> {
    spec fn scene(&self) -> Scene {
        Scene {
            dawg: self.dawg@,
            rules: self.rules@,
            grid: self.grid@,
            vertical: self.vertical,
            first: self.first,
        }
    }

    /// The line lies on the board `board`, seen in the line's direction.
    spec fn on(&self, board: Seq<Seq<char>>) -> bool {
        &&& self.y < BOARD_SIZE
        &&& grid_wf(board)
        &&& self.scene() == scene_of(self.dawg@, self.rules@, board, self.vertical, self.first)
        &&& self.scene().wf()
        &&& self.first ==> !self.vertical
    }
}

/// How far a word has come: where it started, the node its letters lead to,
/// the letters themselves, and what they have gathered.
struct Reach {
    s: usize,
    node: usize,
    word: Vec<char>,
    remaining: Vec<char>,
    used: Vec<char>,
    base: u64,
    mult: u64,
    cross: u64,
    touched: bool,
}

impl Reach {
    /// The record agrees with the line: the letters lie on legal places from
    /// `s` on, the graph reads them up to `node`, and the sums are theirs.
    spec fn on_track(&self, line: &Line, rack: Seq<char>) -> bool {
        let scene = line.scene();
        let y = line.y as int;
        let s = self.s as int;
        let t = scene.tally(y, s, self.word@);
        &&& s + self.word@.len() <= BOARD_SIZE
        &&& scene.framed_left(y, s)
        &&& scene.cells_ok(y, s, self.word@)
        &&& scene.dawg.walk(scene.dawg.root, self.word@) == Some(self.node as nat)
        &&& self.node < scene.dawg.nodes.len()
        &&& self.base == t.base
        &&& self.mult == t.mult
        &&& self.cross == t.cross
        &&& self.touched == t.touched
        &&& self.used@ == t.used
        &&& letters_of(self.used@).subset_of(letters_of(rack))
        &&& letters_of(self.remaining@) == letters_of(rack).sub(letters_of(self.used@))
    }
}

/// The best move so far is a legal move, or none has been found.
spec fn settled(line: &Line, board: Seq<Seq<char>>, rack: Seq<char>, m: MoveModel) -> bool {
    &&& m.score > 0 ==> is_candidate(line.dawg@, line.rules@, board, rack, line.first, m)
    &&& m.score == 0 ==> m == MoveModel::none()
}

/// The best move so far is found before `w` placed in the line from `s`
/// on, or is that very word.
spec fn at_or_ahead(line: &Line, s: int, w: Seq<char>, m: MoveModel) -> bool {
    ||| ahead(m, line.vertical, line.y as int, s, w)
    ||| within(m, line.vertical, line.y as int, s, w) && m.letters == w
}

/// What is found before a word, or is that word, is found before the words
/// that go on from it.
proof fn lemma_ahead_child(line: &Line, s: int, w: Seq<char>, c: char, m: MoveModel)
    requires
        at_or_ahead(line, s, w, m),
    ensures
        ahead(m, line.vertical, line.y as int, s, w.push(c)),
{
    lemma_lex_lt_extension(m.letters, w, seq![c]);
    assert(w + seq![c] =~= w.push(c));
}

/// A word that goes on from `w` with `c` is found before the words that go
/// on from `w` with a greater letter.
proof fn lemma_ahead_sibling(line: &Line, s: int, w: Seq<char>, c: char, d: char, m: MoveModel)
    requires
        c < d,
        within(m, line.vertical, line.y as int, s, w.push(c)),
    ensures
        ahead(m, line.vertical, line.y as int, s, w.push(d)),
{
    lemma_lex_lt_sibling(w, c, d, m.letters, Seq::empty());
    assert(w.push(d) + Seq::<char>::empty() =~= w.push(d));
}

/// A word that begins with `w.push(c)` begins with `w`.
proof fn lemma_within_parent(line: &Line, s: int, w: Seq<char>, c: char, m: MoveModel)
    requires
        within(m, line.vertical, line.y as int, s, w.push(c)),
    ensures
        within(m, line.vertical, line.y as int, s, w),
{
    let longer = w.push(c);
    assert(m.letters.subrange(0, longer.len() as int) =~= longer);
    assert forall|i: int| 0 <= i < w.len() implies m.letters[i] == w[i] by {
        assert(m.letters.subrange(0, longer.len() as int)[i] == longer[i]);
    }
    assert(m.letters.subrange(0, w.len() as int) =~= w);
}

/// What the best move stood against, the move it has changed to stands
/// against.
proof fn lemma_outdone_carries(
    scene: Scene,
    rack: Seq<char>,
    tie: TieBreak,
    y: int,
    s: int,
    full: Seq<char>,
    from: MoveModel,
    to: MoveModel,
)
    requires
        scene.outdone(rack, tie, y, s, full, from),
        advanced(tie, from, to),
    ensures
        scene.outdone(rack, tie, y, s, full, to),
{
    if scene.legal(rack, y, s, full) && scene.score(y, s, full) > 0 {
        lemma_preferred_carries(tie, from, to, scene.move_of(y, s, full));
    }
}

/// The better of the best move so far and a new one; `tie` decides between
/// equal scores. A move without score never replaces anything.
fn better(best: Move, found: Move, tie: TieBreak) -> (out: Move)
    requires
        best@.score > 0 ==> found_before(best@, found@),
    ensures
        out@ == best@ || out@ == found@,
        found@.score == 0 ==> out@ == best@,
        advanced(tie, best@, out@),
        found@.score > 0 ==> preferred(tie, out@, found@),
{
    if found.score == 0 {
        best
    } else if found.outscores(&best) {
        found
    } else if best.outscores(&found) {
        best
    } else {
        match tie {
            TieBreak::KeepFirst => best,
            TieBreak::KeepLast => found,
        }
    }
}

/// Whether a letter lies beside the place `x` of line `y`, in the line
/// before or the line after.
fn has_neighbour(grid: &Board, y: usize, x: usize) -> (yes: bool)
    requires
        y < BOARD_SIZE,
        x < BOARD_SIZE,
    ensures
        yes == ((y > 0 && grid@[y - 1][x as int] != EMPTY) || (y + 1 < BOARD_SIZE && grid@[y + 1][x as int]
            != EMPTY)),
{
    (y > 0 && grid.get(y - 1, x) != EMPTY) || (y + 1 < BOARD_SIZE && grid.get(y + 1, x) != EMPTY)
}

/// The place that the next letter of the word of `reach` goes to has not
/// fallen off the line.
spec fn room(line: &Line, reach: &Reach) -> bool {
    reach.s + reach.word@.len() < BOARD_SIZE
}

/// Follows every word that begins as `reach` says, and gives the best move
/// among them and `best`.
fn explore(
    line: &Line,
    reach: &Reach,
    best: Move,
    Ghost(rack): Ghost<Seq<char>>,
    Ghost(board): Ghost<Seq<Seq<char>>>,
) -> (out: Move)
    requires
        line.on(board),
        reach.on_track(line, rack),
        settled(line, board, rack, best@),
        ahead(best@, line.vertical, line.y as int, reach.s as int, reach.word@),
    ensures
        settled(line, board, rack, out@),
        advanced(line.tie, best@, out@),
        out@ == best@ || within(out@, line.vertical, line.y as int, reach.s as int, reach.word@),
        forall|v: Seq<char>| #[trigger]
            line.scene().outdone(
                rack,
                line.tie,
                line.y as int,
                reach.s as int,
                reach.word@ + v,
                out@,
            ),
    decreases BOARD_SIZE - (reach.s + reach.word@.len()), 2nat,
{
    let ghost scene = line.scene();
    let ghost y = line.y as int;
    let ghost s = reach.s as int;
    let ghost w = reach.word@;
    let x: usize = reach.s + reach.word.len();
    let first = consider(line, reach, best, Ghost(rack), Ghost(board));
    let ghost one = first@;
    if x == BOARD_SIZE {
        proof {
            assert forall|v: Seq<char>| #[trigger]
                scene.outdone(rack, line.tie, y, s, w + v, first@) by {
                if v.len() == 0 {
                    assert(w + v =~= w);
                }
            }
        }
        return first;
    }
    let out = if line.grid.get(line.y, x) != EMPTY {
        follow(line, reach, first, Ghost(rack), Ghost(board))
    } else {
        branch(line, reach, first, Ghost(rack), Ghost(board))
    };
    proof {
        lemma_advanced_twice(line.tie, best@, one, out@);
        assert forall|v: Seq<char>| #[trigger] scene.outdone(rack, line.tie, y, s, w + v, out@) by {
            if v.len() == 0 {
                assert(w + v =~= w);
                lemma_outdone_carries(scene, rack, line.tie, y, s, w, one, out@);
            }
        }
    }
    out
}

/// Takes the word of `reach` as a move where it is one, and gives the better
/// of it and `best`.
fn consider(
    line: &Line,
    reach: &Reach,
    best: Move,
    Ghost(rack): Ghost<Seq<char>>,
    Ghost(board): Ghost<Seq<Seq<char>>>,
) -> (out: Move)
    requires
        line.on(board),
        reach.on_track(line, rack),
        settled(line, board, rack, best@),
        ahead(best@, line.vertical, line.y as int, reach.s as int, reach.word@),
    ensures
        settled(line, board, rack, out@),
        advanced(line.tie, best@, out@),
        out@ == best@ || (within(out@, line.vertical, line.y as int, reach.s as int, reach.word@)
            && out@.letters == reach.word@),
        at_or_ahead(line, reach.s as int, reach.word@, out@),
        line.scene().outdone(rack, line.tie, line.y as int, reach.s as int, reach.word@, out@),
{
    let ghost scene = line.scene();
    let ghost y = line.y as int;
    let ghost s = reach.s as int;
    let ghost w = reach.word@;
    let x: usize = reach.s + reach.word.len();
    proof {
        lemma_tally_bounds(scene, y, s, w);
        lemma_pow4_grows(reach.used@.len(), 15);
        lemma_pow4_board();
    }
    let ends_word = line.dawg.is_terminal(reach.node);
    let tied = if line.first {
        line.y == CENTER && reach.s <= CENTER && CENTER < x
    } else {
        reach.touched
    };
    let open_end = x == BOARD_SIZE || line.grid.get(line.y, x) == EMPTY;
    if reach.word.len() > 0 && reach.used.len() > 0 && ends_word && tied && open_end {
        assert(reach.base * reach.mult <= 60000 * 1073741824) by (nonlinear_arith)
            requires
                0 <= reach.base <= 4000 * reach.used@.len(),
                reach.used@.len() <= 15,
                1 <= reach.mult <= 1073741824,
        ;
        assert(reach.cross <= 72000 * 15) by (nonlinear_arith)
            requires
                reach.cross <= 72000 * reach.used@.len(),
                reach.used@.len() <= 15,
        ;
        let bonus: u64 = if reach.used.len() == RACK_SIZE {
            FULL_RACK_BONUS
        } else {
            0
        };
        let score: u64 = reach.base * reach.mult + reach.cross + bonus;
        let found = Move {
            is_vertical: line.vertical,
            row: if line.vertical {
                reach.s
            } else {
                line.y
            },
            col: if line.vertical {
                line.y
            } else {
                reach.s
            },
            letters: reach.word.clone(),
            score,
            used: reach.used.clone(),
        };
        proof {
            assert(found@.letters =~= w);
            assert(found@.used =~= reach.used@);
            assert(scene.legal(rack, y, s, w));
            assert(found@ == scene.move_of(y, s, w));
            assert(is_candidate(line.dawg@, line.rules@, board, rack, line.first, found@));
            assert(w.subrange(0, w.len() as int) =~= w);
        }
        better(best, found, line.tie)
    } else {
        best
    }
}

/// The record of the word of `reach` with `letter` added on the next place,
/// `next` being the node that `letter` leads to.
fn advance(
    line: &Line,
    reach: &Reach,
    letter: char,
    next: usize,
    at: Option<usize>,
    gained: u64,
    Ghost(rack): Ghost<Seq<char>>,
) -> (onward: Reach)
    requires
        line.scene().wf(),
        line.y < BOARD_SIZE,
        reach.on_track(line, rack),
        room(line, reach),
        line.scene().cell_ok(line.y as int, reach.s + reach.word@.len(), letter),
        line.scene().dawg.step(reach.node as nat, letter) == Some(next as nat),
        match at {
            Some(i) => {
                &&& !line.scene().occupied(line.y as int, reach.s + reach.word@.len())
                &&& i < reach.remaining@.len()
                &&& reach.remaining@[i as int] == letter
                &&& gained == if line.scene().has_neighbour(
                    line.y as int,
                    reach.s + reach.word@.len(),
                ) {
                    line.scene().cross_points_at(line.y as int, reach.s + reach.word@.len(), letter)
                } else {
                    0
                }
            },
            None => line.scene().occupied(line.y as int, reach.s + reach.word@.len()),
        },
    ensures
        onward.on_track(line, rack),
        onward.s == reach.s,
        onward.word@ == reach.word@.push(letter),
{
    broadcast use vstd::multiset::group_multiset_axioms;

    let ghost scene = line.scene();
    let ghost y = line.y as int;
    let ghost s = reach.s as int;
    let ghost w = reach.word@;
    let x: usize = reach.s + reach.word.len();
    let (row, col) = if line.vertical {
        (x, line.y)
    } else {
        (line.y, x)
    };
    let mut word = reach.word.clone();
    word.push(letter);
    proof {
        assert(word@ =~= w.push(letter));
        lemma_tally_bounds(scene, y, s, w);
        lemma_tally_push(scene, y, s, w, letter);
        lemma_walk_push(scene.dawg, w, letter);
        assert(scene.dawg.node_wf(reach.node as int));
        assert forall|i: int| 0 <= i < w.len() + 1 implies #[trigger] scene.cell_ok(
            y,
            s + i,
            w.push(letter)[i],
        ) by {
            if i < w.len() {
                assert(scene.cell_ok(y, s + i, w[i]));
            }
        }
        lemma_pow4_grows(reach.used@.len(), 14);
        lemma_pow4_board();
        assert(pow4(15) == 4 * pow4(14));
    }
    match at {
        Some(i) => {
            let points = line.rules.letter_points(letter);
            let (lm, wm) = line.rules.multipliers(row, col);
            let mut remaining = reach.remaining.clone();
            remaining.remove(i);
            let mut used = reach.used.clone();
            used.push(letter);
            assert(points * lm <= 4000) by (nonlinear_arith)
                requires
                    0 <= points <= 1000,
                    1 <= lm <= 4,
            ;
            assert(reach.mult * wm <= 4 * 268435456) by (nonlinear_arith)
                requires
                    1 <= reach.mult <= 268435456,
                    1 <= wm <= 4,
            ;
            assert(reach.base <= 60000 && reach.cross <= 1080000) by (nonlinear_arith)
                requires
                    reach.base <= 4000 * reach.used@.len(),
                    reach.cross <= 72000 * reach.used@.len(),
                    reach.used@.len() <= 15,
            ;
            proof {
                if scene.has_neighbour(y, x as int) {
                    lemma_tally_bounds(scene, y, s, w.push(letter));
                }
            }
            let onward = Reach {
                s: reach.s,
                node: next,
                word,
                remaining,
                used,
                base: reach.base + (points as u64) * (lm as u64),
                mult: reach.mult * (wm as u64),
                cross: reach.cross + gained,
                touched: reach.touched || gained_beside(line, reach),
            };
            proof {
                assert(onward.used@ =~= reach.used@.push(letter));
                assert(onward.remaining@ =~= reach.remaining@.remove(i as int));
                vstd::seq_lib::to_multiset_build(reach.used@, letter);
                vstd::seq_lib::to_multiset_remove(reach.remaining@, i as int);
                vstd::seq_lib::to_multiset_contains(reach.remaining@, letter);
                assert(reach.remaining@.contains(letter));
                assert(letters_of(onward.used@).subset_of(letters_of(rack)));
                assert(letters_of(onward.remaining@) =~= letters_of(rack).sub(
                    letters_of(onward.used@),
                ));
            }
            onward
        },
        None => {
            Reach {
                s: reach.s,
                node: next,
                word,
                remaining: reach.remaining.clone(),
                used: reach.used.clone(),
                base: reach.base,
                mult: reach.mult,
                cross: reach.cross,
                touched: true,
            }
        },
    }
}

/// Whether a letter lies beside the place that the next letter of the word
/// of `reach` goes to.
fn gained_beside(line: &Line, reach: &Reach) -> (yes: bool)
    requires
        line.y < BOARD_SIZE,
        room(line, reach),
    ensures
        yes == line.scene().has_neighbour(line.y as int, reach.s + reach.word@.len()),
{
    has_neighbour(line.grid, line.y, reach.s + reach.word.len())
}

/// The next place holds a letter: the word goes on with that letter or
/// not at all.
fn follow(
    line: &Line,
    reach: &Reach,
    best: Move,
    Ghost(rack): Ghost<Seq<char>>,
    Ghost(board): Ghost<Seq<Seq<char>>>,
) -> (out: Move)
    requires
        line.on(board),
        reach.on_track(line, rack),
        settled(line, board, rack, best@),
        at_or_ahead(line, reach.s as int, reach.word@, best@),
        room(line, reach),
        line.scene().occupied(line.y as int, reach.s + reach.word@.len()),
    ensures
        settled(line, board, rack, out@),
        advanced(line.tie, best@, out@),
        out@ == best@ || within(out@, line.vertical, line.y as int, reach.s as int, reach.word@),
        forall|v: Seq<char>|
            v.len() > 0 ==> #[trigger] line.scene().outdone(
                rack,
                line.tie,
                line.y as int,
                reach.s as int,
                reach.word@ + v,
                out@,
            ),
    decreases BOARD_SIZE - (reach.s + reach.word@.len()), 0nat,
{
    let ghost scene = line.scene();
    let ghost y = line.y as int;
    let ghost s = reach.s as int;
    let ghost w = reach.word@;
    let x: usize = reach.s + reach.word.len();
    let cell = line.grid.get(line.y, x);
    match line.dawg.child(reach.node, cell) {
        Some(next) => {
            let onward = advance(line, reach, cell, next, None, 0, Ghost(rack));
            proof {
                lemma_ahead_child(line, s, w, cell, best@);
            }
            let out = explore(line, &onward, best, Ghost(rack), Ghost(board));
            proof {
                if out@ != best@ {
                    lemma_within_parent(line, s, w, cell, out@);
                }
                assert forall|v: Seq<char>| v.len() > 0 implies #[trigger] scene.outdone(
                    rack,
                    line.tie,
                    y,
                    s,
                    w + v,
                    out@,
                ) by {
                    if scene.legal(rack, y, s, w + v) {
                        lemma_legal_prefix(scene, rack, y, s, w, v);
                        assert(v[0] == cell);
                        assert(w + v =~= w.push(cell) + v.drop_first());
                        assert(scene.outdone(
                            rack,
                            line.tie,
                            y,
                            s,
                            onward.word@ + v.drop_first(),
                            out@,
                        ));
                    }
                }
            }
            out
        },
        None => {
            proof {
                assert forall|v: Seq<char>| v.len() > 0 implies #[trigger] scene.outdone(
                    rack,
                    line.tie,
                    y,
                    s,
                    w + v,
                    best@,
                ) by {
                    if scene.legal(rack, y, s, w + v) {
                        lemma_legal_prefix(scene, rack, y, s, w, v);
                        lemma_walk_push(scene.dawg, w, v[0]);
                    }
                }
            }
            best
        },
    }
}

/// Tries `letter` on the next place, which is empty: the letter must be on
/// the rack still, and the word it forms across must stand.
fn try_letter(
    line: &Line,
    reach: &Reach,
    letter: char,
    next: usize,
    best: Move,
    Ghost(rack): Ghost<Seq<char>>,
    Ghost(board): Ghost<Seq<Seq<char>>>,
) -> (out: Move)
    requires
        line.on(board),
        reach.on_track(line, rack),
        settled(line, board, rack, best@),
        ahead(best@, line.vertical, line.y as int, reach.s as int, reach.word@.push(letter)),
        room(line, reach),
        !line.scene().occupied(line.y as int, reach.s + reach.word@.len()),
        line.scene().dawg.step(reach.node as nat, letter) == Some(next as nat),
    ensures
        settled(line, board, rack, out@),
        advanced(line.tie, best@, out@),
        out@ == best@ || within(
            out@,
            line.vertical,
            line.y as int,
            reach.s as int,
            reach.word@.push(letter),
        ),
        forall|v: Seq<char>|
            v.len() > 0 && v[0] == letter ==> #[trigger] line.scene().outdone(
                rack,
                line.tie,
                line.y as int,
                reach.s as int,
                reach.word@ + v,
                out@,
            ),
    decreases BOARD_SIZE - (reach.s + reach.word@.len()), 0nat,
{
    broadcast use vstd::multiset::group_multiset_axioms;

    let ghost scene = line.scene();
    let ghost y = line.y as int;
    let ghost s = reach.s as int;
    let ghost w = reach.word@;
    let x: usize = reach.s + reach.word.len();
    let (row, col) = if line.vertical {
        (x, line.y)
    } else {
        (line.y, x)
    };
    let mut fine = letter != EMPTY;
    let mut gained: u64 = 0;
    let mut at: Option<usize> = None;
    if fine {
        at = position(&reach.remaining, letter);
        fine = at.is_some();
    }
    if fine && has_neighbour(line.grid, line.y, x) {
        let mut across = line.grid.column(x);
        across.set(line.y, letter);
        let checked = check_crossword(line.dawg, line.rules, &across, line.y, row, col);
        fine = checked.0;
        gained = checked.1;
    }
    if fine {
        let onward = advance(line, reach, letter, next, at, gained, Ghost(rack));
        let out = explore(line, &onward, best, Ghost(rack), Ghost(board));
        proof {
            assert forall|v: Seq<char>| v.len() > 0 && v[0] == letter implies #[trigger] scene.outdone(
                rack,
                line.tie,
                y,
                s,
                w + v,
                out@,
            ) by {
                assert(w + v =~= w.push(letter) + v.drop_first());
                assert(scene.outdone(rack, line.tie, y, s, onward.word@ + v.drop_first(), out@));
            }
        }
        out
    } else {
        proof {
            assert forall|v: Seq<char>| v.len() > 0 && v[0] == letter implies #[trigger] scene.outdone(
                rack,
                line.tie,
                y,
                s,
                w + v,
                best@,
            ) by {
                if scene.legal(rack, y, s, w + v) {
                    lemma_legal_prefix(scene, rack, y, s, w, v);
                    assert(w.push(letter) + v.drop_first() =~= w + v);
                    lemma_legal_prefix(scene, rack, y, s, w.push(letter), v.drop_first());
                    lemma_tally_push(scene, y, s, w, letter);
                    vstd::seq_lib::to_multiset_build(reach.used@, letter);
                    assert(false);
                }
            }
        }
        best
    }
}

/// The next place is empty: the word goes on with each letter that the
/// graph allows here, in the order of the letters.
fn branch(
    line: &Line,
    reach: &Reach,
    best: Move,
    Ghost(rack): Ghost<Seq<char>>,
    Ghost(board): Ghost<Seq<Seq<char>>>,
) -> (out: Move)
    requires
        line.on(board),
        reach.on_track(line, rack),
        settled(line, board, rack, best@),
        at_or_ahead(line, reach.s as int, reach.word@, best@),
        room(line, reach),
        !line.scene().occupied(line.y as int, reach.s + reach.word@.len()),
    ensures
        settled(line, board, rack, out@),
        advanced(line.tie, best@, out@),
        out@ == best@ || within(out@, line.vertical, line.y as int, reach.s as int, reach.word@),
        forall|v: Seq<char>|
            v.len() > 0 ==> #[trigger] line.scene().outdone(
                rack,
                line.tie,
                line.y as int,
                reach.s as int,
                reach.word@ + v,
                out@,
            ),
    decreases BOARD_SIZE - (reach.s + reach.word@.len()), 1nat,
{
    let ghost scene = line.scene();
    let ghost y = line.y as int;
    let ghost s = reach.s as int;
    let ghost w = reach.word@;
    let ghost start = best@;
    let mut best = best;
    let node = line.dawg.node(reach.node).unwrap();
    let edges = node.edges();
    let mut k: usize = 0;
    proof {
        assert forall|j: int| 0 <= j < edges@.len() implies ahead(
            best@,
            line.vertical,
            y,
            s,
            w.push((#[trigger] edges@[j]).0),
        ) by {
            lemma_ahead_child(line, s, w, edges@[j].0, best@);
        }
    }
    while k < edges.len()
        invariant
            k <= edges.len(),
            line.on(board),
            reach.on_track(line, rack),
            settled(line, board, rack, best@),
            room(line, reach),
            scene == line.scene(),
            y == line.y as int,
            s == reach.s as int,
            w == reach.word@,
            !scene.occupied(y, s + w.len()),
            node@ == scene.dawg.nodes[reach.node as int],
            lists_transitions(edges@, node@.children),
            advanced(line.tie, start, best@),
            best@ == start || within(best@, line.vertical, y, s, w),
            forall|j: int|
                k <= j < edges@.len() ==> ahead(
                    best@,
                    line.vertical,
                    y,
                    s,
                    w.push((#[trigger] edges@[j]).0),
                ),
            forall|j: int, v: Seq<char>|
                #![trigger edges@[j], scene.outdone(rack, line.tie, y, s, w + v, best@)]
                0 <= j < k && v.len() > 0 && v[0] == edges@[j].0 ==> scene.outdone(
                    rack,
                    line.tie,
                    y,
                    s,
                    w + v,
                    best@,
                ),
        decreases edges.len() - k,
    {
        let letter = edges[k].0;
        let next = edges[k].1;
        let ghost was = best@;
        proof {
            assert(node@.children.contains_pair(edges@[k as int].0, edges@[k as int].1 as nat));
        }
        best = try_letter(line, reach, letter, next, best, Ghost(rack), Ghost(board));
        proof {
            lemma_advanced_twice(line.tie, start, was, best@);
            if best@ != was {
                lemma_within_parent(line, s, w, letter, best@);
            }
            assert forall|j: int| k + 1 <= j < edges@.len() implies ahead(
                best@,
                line.vertical,
                y,
                s,
                w.push((#[trigger] edges@[j]).0),
            ) by {
                if best@ != was {
                    assert(edges@[k as int].0 < edges@[j].0);
                    lemma_ahead_sibling(line, s, w, letter, edges@[j].0, best@);
                }
            }
            assert forall|j: int, v: Seq<char>|
                #![trigger edges@[j], scene.outdone(rack, line.tie, y, s, w + v, best@)]
                0 <= j < k + 1 && v.len() > 0 && v[0] == edges@[j].0 implies scene.outdone(
                rack,
                line.tie,
                y,
                s,
                w + v,
                best@,
            ) by {
                if j < k {
                    assert(scene.outdone(rack, line.tie, y, s, w + v, was));
                    lemma_outdone_carries(scene, rack, line.tie, y, s, w + v, was, best@);
                }
            }
        }
        k += 1;
    }
    proof {
        assert forall|v: Seq<char>| v.len() > 0 implies #[trigger] scene.outdone(
            rack,
            line.tie,
            y,
            s,
            w + v,
            best@,
        ) by {
            if scene.legal(rack, y, s, w + v) {
                lemma_legal_prefix(scene, rack, y, s, w, v);
                lemma_walk_push(scene.dawg, w, v[0]);
                assert(node@.children.dom().contains(v[0]));
                let j = choose|j: int| 0 <= j < edges@.len() && (#[trigger] edges@[j]).0 == v[0];
                assert(v[0] == edges@[j].0);
            }
        }
    }
    best
}

/// Whether line `y` holds no letter and has none beside it.
fn line_is_bare(line: &Line) -> (bare: bool)
    requires
        line.y < BOARD_SIZE,
    ensures
        bare == forall|x: int| 0 <= x < BOARD_SIZE ==> #[trigger] line.scene().lonely(line.y as int, x),
{
    let mut x: usize = 0;
    while x < BOARD_SIZE
        invariant
            x <= BOARD_SIZE,
            line.y < BOARD_SIZE,
            forall|i: int| 0 <= i < x ==> #[trigger] line.scene().lonely(line.y as int, i),
        decreases BOARD_SIZE - x,
    {
        if line.grid.get(line.y, x) != EMPTY || has_neighbour(line.grid, line.y, x) {
            assert(!line.scene().lonely(line.y as int, x as int));
            return false;
        }
        assert(line.scene().lonely(line.y as int, x as int));
        x += 1;
    }
    true
}

/// Searches one line: every place a word may start at, and from each every
/// word of the graph.
fn search_line(
    line: &Line,
    rack: &Vec<char>,
    best: Move,
    Ghost(board): Ghost<Seq<Seq<char>>>,
) -> (out: Move)
    requires
        line.on(board),
        settled(line, board, rack@, best@),
        ahead(best@, line.vertical, line.y as int, 0, Seq::empty()),
    ensures
        settled(line, board, rack@, out@),
        advanced(line.tie, best@, out@),
        out@ == best@ || (out@.is_vertical == line.vertical && line_of(out@) == line.y),
        forall|s: int, w: Seq<char>| #[trigger]
            line.scene().outdone(rack@, line.tie, line.y as int, s, w, out@),
{
    broadcast use vstd::multiset::group_multiset_axioms;

    let ghost scene = line.scene();
    let ghost y = line.y as int;
    let ghost first = best@;
    let mut best = best;
    if !line.first && line_is_bare(line) {
        proof {
            assert forall|s: int, w: Seq<char>| #[trigger]
                scene.outdone(rack@, line.tie, y, s, w, best@) by {
                if scene.legal(rack@, y, s, w) {
                    lemma_isolated_line(scene, y, s, w);
                }
            }
        }
        return best;
    }
    let root = line.dawg.root();
    let starts: usize = if line.first {
        CENTER + 1
    } else {
        BOARD_SIZE
    };
    let mut start: usize = 0;
    while start < starts
        invariant
            start <= starts <= BOARD_SIZE,
            line.on(board),
            settled(line, board, rack@, best@),
            scene == line.scene(),
            y == line.y as int,
            root == scene.dawg.root,
            advanced(line.tie, first, best@),
            best@ == first || (best@.is_vertical == line.vertical && line_of(best@) == line.y),
            ahead(best@, line.vertical, y, start as int, Seq::empty()),
            forall|s: int, w: Seq<char>|
                s < start ==> #[trigger] scene.outdone(rack@, line.tie, y, s, w, best@),
        decreases starts - start,
    {
        let ghost was = best@;
        if start == 0 || line.grid.get(line.y, start - 1) == EMPTY {
            let reach = Reach {
                s: start,
                node: root,
                word: Vec::new(),
                remaining: rack.clone(),
                used: Vec::new(),
                base: 0,
                mult: 1,
                cross: 0,
                touched: false,
            };
            proof {
                assert(reach.remaining@ =~= rack@);
                crate::bag::lemma_no_letters(reach.used@);
                assert(letters_of(rack@).sub(Multiset::empty()) =~= letters_of(rack@));
                assert(reach.word@ =~= Seq::<char>::empty());
            }
            best = explore(line, &reach, best, Ghost(rack@), Ghost(board));
            proof {
                lemma_advanced_twice(line.tie, first, was, best@);
                assert forall|w: Seq<char>| #[trigger]
                    scene.outdone(rack@, line.tie, y, start as int, w, best@) by {
                    assert(reach.word@ + w =~= w);
                    assert(scene.outdone(rack@, line.tie, y, start as int, reach.word@ + w, best@));
                }
            }
        }
        proof {
            assert forall|s: int, w: Seq<char>| s < start + 1 implies #[trigger] scene.outdone(
                rack@,
                line.tie,
                y,
                s,
                w,
                best@,
            ) by {
                if s < start {
                    assert(scene.outdone(rack@, line.tie, y, s, w, was));
                    lemma_outdone_carries(scene, rack@, line.tie, y, s, w, was, best@);
                }
            }
        }
        start += 1;
    }
    best
}

/// A board without letters.
pub open spec fn blank_grid() -> Seq<Seq<char>> {
    Seq::new(BOARD_SIZE as nat, |r: int| Seq::new(BOARD_SIZE as nat, |c: int| EMPTY))
}

/// Finds the best first move of a game: a word of the graph made of letters
/// of `rack`, laid in the centre row over the centre square of the empty
/// board. Gives "no move" where no such word scores. Of several best moves
/// `tie` keeps the first or the last in the order of the search.
pub fn find_first_words(dawg: &Dawg, rules: &Rules, rack: &Vec<char>, tie: TieBreak) -> (mv: Move)
    ensures
        is_best(dawg@, rules@, blank_grid(), rack@, true, tie, mv@),
        mv@.score <= MAX_MOVE_SCORE,
{
    let board = Board::new();
    let ghost grid = board@;
    proof {
        assert forall|r: int| 0 <= r < BOARD_SIZE implies #[trigger] grid[r] == blank_grid()[r] by {
            assert forall|c: int| 0 <= c < BOARD_SIZE implies grid[r][c] == blank_grid()[r][c] by {
                assert(grid[r][c] == EMPTY);
            }
            assert(grid[r] =~= blank_grid()[r]);
        }
        assert(grid =~= blank_grid());
    }
    dawg.sound();
    rules.sound();
    let line = Line { dawg, rules, grid: &board, vertical: false, first: true, y: CENTER, tie };
    let mv = search_line(&line, rack, Move::none(), Ghost(grid));
    proof {
        let scene = line.scene();
        assert forall|c: MoveModel| #[trigger]
            is_candidate(dawg@, rules@, grid, rack@, true, c) implies c.score <= mv@.score && (
        c.score > 0 ==> preferred(tie, mv@, c)) by {
            assert(scene.outdone(rack@, tie, c.row as int, c.col as int, c.letters, mv@));
        }
        if mv@.score > 0 {
            crate::placement::lemma_score_bound(
                scene,
                mv@.row as int,
                mv@.col as int,
                mv@.letters,
            );
        }
    }
    mv
}

/// Finds the best move on `board` with the letters of `rack`: line by line,
/// first along the rows, then along the columns on the transposed board. A
/// word must fit the letters that lie on the board, use at least one letter
/// of the rack, touch a letter on the board, and form only words across.
/// Gives "no move" where no such word scores. Of several best moves `tie`
/// keeps the first or the last in the order of the search.
pub fn find_words(dawg: &Dawg, rules: &Rules, board: &Board, rack: &Vec<char>, tie: TieBreak) -> (mv:
    Move)
    ensures
        is_best(dawg@, rules@, board@, rack@, false, tie, mv@),
        mv@.score <= MAX_MOVE_SCORE,
{
    dawg.sound();
    rules.sound();
    board.sound();
    let ghost grid = board@;
    let ghost across = scene_of(dawg@, rules@, grid, false, false);
    let ghost down = scene_of(dawg@, rules@, grid, true, false);
    let mut best = Move::none();
    let mut y: usize = 0;
    while y < BOARD_SIZE
        invariant
            y <= BOARD_SIZE,
            grid == board@,
            grid_wf(grid),
            dawg@.wf(),
            rules@.wf(),
            across == scene_of(dawg@, rules@, grid, false, false),
            best@.score > 0 ==> is_candidate(dawg@, rules@, grid, rack@, false, best@),
            best@.score == 0 ==> best@ == MoveModel::none(),
            ahead(best@, false, y as int, 0, Seq::empty()),
            forall|l: int, s: int, w: Seq<char>|
                0 <= l < y ==> #[trigger] across.outdone(rack@, tie, l, s, w, best@),
        decreases BOARD_SIZE - y,
    {
        let line = Line { dawg, rules, grid: board, vertical: false, first: false, y, tie };
        assert(line.scene() == across);
        let ghost was = best@;
        best = search_line(&line, rack, best, Ghost(grid));
        proof {
            assert forall|l: int, s: int, w: Seq<char>| 0 <= l < y + 1 implies #[trigger] across.outdone(
                rack@,
                tie,
                l,
                s,
                w,
                best@,
            ) by {
                if l < y {
                    assert(across.outdone(rack@, tie, l, s, w, was));
                    lemma_outdone_carries(across, rack@, tie, l, s, w, was, best@);
                } else {
                    assert(line.scene().outdone(rack@, line.tie, line.y as int, s, w, best@));
                }
            }
        }
        y += 1;
    }
    let flipped = board.transpose();
    let mut y: usize = 0;
    while y < BOARD_SIZE
        invariant
            y <= BOARD_SIZE,
            grid == board@,
            grid_wf(grid),
            flipped@ == transposed(grid),
            grid_wf(flipped@),
            dawg@.wf(),
            rules@.wf(),
            across == scene_of(dawg@, rules@, grid, false, false),
            down == scene_of(dawg@, rules@, grid, true, false),
            best@.score > 0 ==> is_candidate(dawg@, rules@, grid, rack@, false, best@),
            best@.score == 0 ==> best@ == MoveModel::none(),
            ahead(best@, true, y as int, 0, Seq::empty()),
            forall|l: int, s: int, w: Seq<char>|
                0 <= l < BOARD_SIZE ==> #[trigger] across.outdone(rack@, tie, l, s, w, best@),
            forall|l: int, s: int, w: Seq<char>|
                0 <= l < y ==> #[trigger] down.outdone(rack@, tie, l, s, w, best@),
        decreases BOARD_SIZE - y,
    {
        let line = Line { dawg, rules, grid: &flipped, vertical: true, first: false, y, tie };
        assert(line.scene() == down);
        let ghost was = best@;
        best = search_line(&line, rack, best, Ghost(grid));
        proof {
            assert forall|l: int, s: int, w: Seq<char>| 0 <= l < y + 1 implies #[trigger] down.outdone(
                rack@,
                tie,
                l,
                s,
                w,
                best@,
            ) by {
                if l < y {
                    assert(down.outdone(rack@, tie, l, s, w, was));
                    lemma_outdone_carries(down, rack@, tie, l, s, w, was, best@);
                } else {
                    assert(line.scene().outdone(rack@, line.tie, line.y as int, s, w, best@));
                }
            }
            assert forall|l: int, s: int, w: Seq<char>| 0 <= l < BOARD_SIZE implies #[trigger] across.outdone(
                rack@,
                tie,
                l,
                s,
                w,
                best@,
            ) by {
                assert(across.outdone(rack@, tie, l, s, w, was));
                lemma_outdone_carries(across, rack@, tie, l, s, w, was, best@);
            }
        }
        y += 1;
    }
    proof {
        assert forall|c: MoveModel| #[trigger]
            is_candidate(dawg@, rules@, grid, rack@, false, c) implies c.score <= best@.score && (
        c.score > 0 ==> preferred(tie, best@, c)) by {
            if c.is_vertical {
                assert(down.outdone(rack@, tie, c.col as int, c.row as int, c.letters, best@));
            } else {
                assert(across.outdone(rack@, tie, c.row as int, c.col as int, c.letters, best@));
            }
        }
        if best@.score > 0 {
            let scene = scene_of(dawg@, rules@, grid, best@.is_vertical, false);
            if best@.is_vertical {
                crate::placement::lemma_score_bound(
                    scene,
                    best@.col as int,
                    best@.row as int,
                    best@.letters,
                );
            } else {
                crate::placement::lemma_score_bound(
                    scene,
                    best@.row as int,
                    best@.col as int,
                    best@.letters,
                );
            }
        }
    }
    best
}

} // verus!

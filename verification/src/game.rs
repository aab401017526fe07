//! A game and its player: the board, the bag, the rack, and the turns that
//! change them.

use crate::bag::{least, letters_of, remove_letters, shuffle_letters, strike_all, TileBag};
use crate::board::{blank, grid_wf, with_move, Board, Move, MoveModel};
use crate::graph::Dawg;
use crate::placement::{is_best, TieBreak, MAX_MOVE_SCORE};
use crate::rules::{Rules, RACK_SIZE};
use crate::search::{blank_grid, find_first_words, find_words};
use vstd::multiset::Multiset;
use vstd::prelude::*;

verus! {

/// How many letters a rack of `held` letters draws from a bag of `in_bag`
/// tiles: what it lacks of a full rack, as far as the bag goes.
pub open spec fn top_up(held: int, in_bag: int) -> int {
    if held >= RACK_SIZE {
        0
    } else {
        least(RACK_SIZE - held, in_bag)
    }
}

/// A rack of `held` letters has, after drawing from a bag of `in_bag`
/// tiles, a full rack or all that it and the bag had.
pub proof fn lemma_top_up(held: int, in_bag: int)
    requires
        0 <= held <= RACK_SIZE,
        0 <= in_bag,
    ensures
        held + top_up(held, in_bag) == least(RACK_SIZE as int, held + in_bag),
{
}

/// Why a move was not made.
#[derive(Debug, Clone, Copy, PartialEq, Eq, Structural)]
pub enum MoveError {
    /// The word does not lie on the board.
    OffBoard,
    /// The move uses a letter that is not on the rack.
    RackUnderflow,
}

/// The state that the players of a game share.
#[derive(Debug)]
pub struct Game {
    pub board: Board,
    pub bag: TileBag,
    pub end: bool,
}

impl Game {
    /// A game about to begin: an empty board and a full bag.
    pub fn new(rules: &Rules) -> (game: Game)
        ensures
            blank(game.board@),
            grid_wf(game.board@),
            game.bag@ == letters_of(rules@.tiles),
            !game.end,
    {
        Game { board: Board::new(), bag: TileBag::new(rules.tiles().clone()), end: false }
    }

    /// Places the word of `mv` on the board.
    pub fn insert_word(&mut self, mv: &Move)
        requires
            mv@.fits(),
        ensures
            final(self).board@ == with_move(old(self).board@, mv@),
            final(self).bag@ == old(self).bag@,
            final(self).end == old(self).end,
    {
        self.board.insert(mv);
    }

    /// Draws what a rack holding `letters` lacks of a full rack, as far as
    /// the bag goes. The letters drawn leave the bag.
    pub fn give_new_letters(&mut self, letters: &Vec<char>) -> (drawn: Vec<char>)
        ensures
            drawn@.len() == top_up(letters@.len() as int, old(self).bag@.len() as int),
            letters_of(drawn@).subset_of(old(self).bag@),
            final(self).bag@ == old(self).bag@.sub(letters_of(drawn@)),
            final(self).bag@.len() == old(self).bag@.len() - drawn@.len(),
            final(self).board@ == old(self).board@,
            final(self).end == old(self).end,
    {
        let wanted = if letters.len() >= RACK_SIZE {
            0
        } else {
            RACK_SIZE - letters.len()
        };
        self.bag.draw(wanted)
    }
}

/// A player: the rack and the score so far.
#[derive(Debug)]
pub struct Player {
    pub letters: Vec<char>,
    pub score: u64,
}

impl Player {
    /// A player who joins `game`, with a rack drawn from its bag.
    pub fn new(game: &mut Game) -> (player: Player)
        ensures
            player.score == 0,
            player.letters@.len() == top_up(0, old(game).bag@.len() as int),
            final(game).bag@ == old(game).bag@.sub(letters_of(player.letters@)),
            letters_of(player.letters@).subset_of(old(game).bag@),
            final(game).bag@.len() == old(game).bag@.len() - player.letters@.len(),
            final(game).board@ == old(game).board@,
            final(game).end == old(game).end,
    {
        let letters = game.give_new_letters(&Vec::new());
        Player { letters, score: 0 }
    }

    /// Fills the rack up from the bag.
    pub fn get_new_letters(&mut self, game: &mut Game)
        ensures
            final(self).score == old(self).score,
            final(self).letters@.len() == old(self).letters@.len() + top_up(
                old(self).letters@.len() as int,
                old(game).bag@.len() as int,
            ),
            final(self).letters@.take(old(self).letters@.len() as int) == old(self).letters@,
            final(game).bag@.len() + final(self).letters@.len() == old(game).bag@.len() + old(
                self,
            ).letters@.len(),
            letters_of(final(self).letters@).add(final(game).bag@) == letters_of(
                old(self).letters@,
            ).add(old(game).bag@),
            final(game).board@ == old(game).board@,
            final(game).end == old(game).end,
    {
        broadcast use vstd::multiset::group_multiset_axioms;

        let drawn = game.give_new_letters(&self.letters);
        let ghost held = self.letters@;
        let mut i: usize = 0;
        proof {
            crate::bag::lemma_take_letters(drawn@, 0);
            crate::bag::lemma_no_letters(drawn@.take(0));
        }
        while i < drawn.len()
            invariant
                i <= drawn.len(),
                self.score == old(self).score,
                self.letters@ == held + drawn@.take(i as int),
                letters_of(self.letters@) == letters_of(held).add(letters_of(drawn@.take(i as int))),
            decreases drawn.len() - i,
        {
            proof {
                assert(drawn@.take(i as int + 1) =~= drawn@.take(i as int).push(drawn@[i as int]));
                vstd::seq_lib::to_multiset_build(drawn@.take(i as int), drawn@[i as int]);
                vstd::seq_lib::to_multiset_build(self.letters@, drawn@[i as int]);
            }
            self.letters.push(drawn[i]);
            proof {
                assert(self.letters@ =~= held + drawn@.take(i as int + 1));
                assert(letters_of(self.letters@) =~= letters_of(held).add(
                    letters_of(drawn@.take(i as int + 1)),
                ));
            }
            i += 1;
        }
        proof {
            assert(drawn@.take(drawn@.len() as int) =~= drawn@);
            assert(letters_of(self.letters@).add(game.bag@) =~= letters_of(held).add(old(game).bag@));
            assert(self.letters@.take(held.len() as int) =~= held);
        }
    }

    /// Gives the last `n` letters of the rack back to the bag, or all of them
    /// where the rack holds fewer.
    pub fn give_back_last(&mut self, game: &mut Game, n: usize)
        ensures
            final(self).score == old(self).score,
            final(self).letters@ == old(self).letters@.take(
                old(self).letters@.len() - least(n as int, old(self).letters@.len() as int),
            ),
            final(game).bag@ == old(game).bag@.add(
                letters_of(
                    old(self).letters@.skip(
                        old(self).letters@.len() - least(n as int, old(self).letters@.len() as int),
                    ),
                ),
            ),
            final(game).bag@.len() + final(self).letters@.len() == old(game).bag@.len() + old(
                self,
            ).letters@.len(),
            letters_of(final(self).letters@).add(final(game).bag@) == letters_of(
                old(self).letters@,
            ).add(old(game).bag@),
            final(game).board@ == old(game).board@,
            final(game).end == old(game).end,
    {
        broadcast use vstd::multiset::group_multiset_axioms;

        let count = if n < self.letters.len() {
            n
        } else {
            self.letters.len()
        };
        let keep = self.letters.len() - count;
        let mut back: Vec<char> = Vec::new();
        let mut i: usize = keep;
        while i < self.letters.len()
            invariant
                keep <= i <= self.letters.len(),
                self.letters@ == old(self).letters@,
                back@ == self.letters@.subrange(keep as int, i as int),
            decreases self.letters.len() - i,
        {
            back.push(self.letters[i]);
            proof {
                assert(self.letters@.subrange(keep as int, i as int + 1) =~= self.letters@.subrange(
                    keep as int,
                    i as int,
                ).push(self.letters@[i as int]));
            }
            i += 1;
        }
        self.letters.truncate(keep);
        game.bag.give_back(&back);
        proof {
            let all = old(self).letters@;
            assert(back@ =~= all.skip(keep as int));
            assert(self.letters@ =~= all.take(keep as int));
            crate::bag::lemma_take_letters(all, keep as int);
            assert(letters_of(self.letters@).add(game.bag@) =~= letters_of(all).add(old(game).bag@));
        }
    }

    /// Exchanges letters: the rack is shuffled, its last `n` letters (all of
    /// them where it holds fewer) go back to the bag, and the rack is filled
    /// up again. Which letters leave and which arrive is left to chance; no
    /// letter is lost or made.
    pub fn exchange_letters(&mut self, game: &mut Game, n: usize)
        ensures
            final(self).score == old(self).score,
            final(self).letters@.len() == ({
                let kept = old(self).letters@.len() - least(n as int, old(self).letters@.len() as int);
                kept + top_up(kept, old(game).bag@.len() + old(self).letters@.len() - kept)
            }),
            final(game).bag@.len() + final(self).letters@.len() == old(game).bag@.len() + old(
                self,
            ).letters@.len(),
            letters_of(final(self).letters@).add(final(game).bag@) == letters_of(
                old(self).letters@,
            ).add(old(game).bag@),
            final(game).board@ == old(game).board@,
            final(game).end == old(game).end,
    {
        let mut rng = rand::thread_rng();
        shuffle_letters(&mut self.letters, &mut rng);
        self.give_back_last(game, n);
        self.get_new_letters(game);
    }

    /// Makes the move `mv`: the word goes on the board, the letters it uses
    /// leave the rack, its score is added, and the rack is filled up. A move
    /// that does not lie on the board or uses a letter the rack does not
    /// hold is refused, and nothing changes.
    pub fn apply(&mut self, game: &mut Game, mv: &Move) -> (res: Result<(), MoveError>)
        requires
            old(self).score + mv.score <= u64::MAX,
        ensures
            match res {
                Ok(()) => {
                    &&& mv@.fits()
                    &&& letters_of(mv@.used).subset_of(letters_of(old(self).letters@))
                    &&& final(game).board@ == with_move(old(game).board@, mv@)
                    &&& final(self).score == old(self).score + mv.score
                    &&& final(self).letters@.take(old(self).letters@.len() - mv@.used.len())
                        == strike_all(old(self).letters@, mv@.used)
                    &&& final(self).letters@.len() == ({
                        let left = old(self).letters@.len() - mv@.used.len();
                        left + top_up(left, old(game).bag@.len() as int)
                    })
                    &&& letters_of(final(self).letters@).add(final(game).bag@).add(
                        letters_of(mv@.used),
                    ) == letters_of(old(self).letters@).add(old(game).bag@)
                    &&& final(game).bag@.len() + final(self).letters@.len() + mv@.used.len() == old(
                        game,
                    ).bag@.len() + old(self).letters@.len()
                    &&& final(game).end == old(game).end
                },
                Err(e) => {
                    &&& e == if !mv@.fits() {
                        MoveError::OffBoard
                    } else {
                        MoveError::RackUnderflow
                    }
                    &&& !mv@.fits() || !letters_of(mv@.used).subset_of(letters_of(old(self).letters@))
                    &&& final(self).letters@ == old(self).letters@
                    &&& final(self).score == old(self).score
                    &&& final(game).board@ == old(game).board@
                    &&& final(game).bag@ == old(game).bag@
                    &&& final(game).end == old(game).end
                },
            },
    {
        broadcast use vstd::multiset::group_multiset_axioms;

        if !mv.fits() {
            return Err(MoveError::OffBoard);
        }
        if !remove_letters(&mut self.letters, &mv.used) {
            return Err(MoveError::RackUnderflow);
        }
        game.insert_word(mv);
        self.score = self.score + mv.score;
        self.get_new_letters(game);
        proof {
            assert(letters_of(self.letters@).add(game.bag@).add(letters_of(mv@.used)) =~= letters_of(
                old(self).letters@,
            ).add(old(game).bag@));
        }
        Ok(())
    }

    /// What comes of a search for a move: where one was found it has been
    /// made; where none was found nothing has changed.
    pub open spec fn moved(
        before: (Seq<char>, nat),
        after: (Seq<char>, nat),
        game_before: (Seq<Seq<char>>, Multiset<char>, bool),
        game_after: (Seq<Seq<char>>, Multiset<char>, bool),
        mv: MoveModel,
    ) -> bool {
        if mv.score > 0 {
            &&& game_after.0 == with_move(game_before.0, mv)
            &&& after.1 == before.1 + mv.score
            &&& after.0.take(before.0.len() - mv.used.len()) == strike_all(before.0, mv.used)
            &&& after.0.len() == ({
                let left = before.0.len() - mv.used.len();
                left + top_up(left, game_before.1.len() as int)
            })
            &&& letters_of(after.0).add(game_after.1).add(letters_of(mv.used)) == letters_of(
                before.0,
            ).add(game_before.1)
            &&& game_after.1.len() + after.0.len() + mv.used.len() == game_before.1.len()
                + before.0.len()
            &&& game_after.2 == game_before.2
        } else {
            &&& after == before
            &&& game_after == game_before
        }
    }

    /// Finds the best first move and makes it.
    pub fn place_best_first_word(
        &mut self,
        game: &mut Game,
        dawg: &Dawg,
        rules: &Rules,
        tie: TieBreak,
    ) -> (mv: Move)
        requires
            old(self).score + MAX_MOVE_SCORE <= u64::MAX,
        ensures
            is_best(dawg@, rules@, blank_grid(), old(self).letters@, true, tie, mv@),
            mv@.score <= MAX_MOVE_SCORE,
            Self::moved(
                (old(self).letters@, old(self).score as nat),
                (final(self).letters@, final(self).score as nat),
                (old(game).board@, old(game).bag@, old(game).end),
                (final(game).board@, final(game).bag@, final(game).end),
                mv@,
            ),
    {
        let mv = find_first_words(dawg, rules, &self.letters, tie);
        if mv.score != 0 {
            let res = self.apply(game, &mv);
            assert(res is Ok);
        }
        mv
    }

    /// Finds the best move on the board and makes it.
    pub fn place_best_word(&mut self, game: &mut Game, dawg: &Dawg, rules: &Rules, tie: TieBreak) -> (mv:
        Move)
        requires
            old(self).score + MAX_MOVE_SCORE <= u64::MAX,
        ensures
            is_best(dawg@, rules@, old(game).board@, old(self).letters@, false, tie, mv@),
            mv@.score <= MAX_MOVE_SCORE,
            Self::moved(
                (old(self).letters@, old(self).score as nat),
                (final(self).letters@, final(self).score as nat),
                (old(game).board@, old(game).bag@, old(game).end),
                (final(game).board@, final(game).bag@, final(game).end),
                mv@,
            ),
    {
        let mv = find_words(dawg, rules, &game.board, &self.letters, tie);
        if mv.score != 0 {
            let res = self.apply(game, &mv);
            assert(res is Ok);
        }
        mv
    }

    /// Plays one turn. The best move is made if there is one. If there is
    /// none and the bag is empty, the game ends; if there is none and the bag
    /// holds tiles, two letters are exchanged and the turn is over.
    pub fn make_move(
        &mut self,
        game: &mut Game,
        dawg: &Dawg,
        rules: &Rules,
        first: bool,
        tie: TieBreak,
    ) -> (mv: Move)
        requires
            old(self).score + MAX_MOVE_SCORE <= u64::MAX,
        ensures
            is_best(
                dawg@,
                rules@,
                if first {
                    blank_grid()
                } else {
                    old(game).board@
                },
                old(self).letters@,
                first,
                tie,
                mv@,
            ),
            mv@.score <= MAX_MOVE_SCORE,
            mv@.score > 0 ==> Self::moved(
                (old(self).letters@, old(self).score as nat),
                (final(self).letters@, final(self).score as nat),
                (old(game).board@, old(game).bag@, old(game).end),
                (final(game).board@, final(game).bag@, final(game).end),
                mv@,
            ),
            mv@.score == 0 ==> {
                &&& final(self).score == old(self).score
                &&& final(game).board@ == old(game).board@
                &&& final(game).bag@.len() + final(self).letters@.len() == old(game).bag@.len()
                    + old(self).letters@.len()
                &&& letters_of(final(self).letters@).add(final(game).bag@) == letters_of(
                    old(self).letters@,
                ).add(old(game).bag@)
                &&& if old(game).bag@.len() == 0 {
                    &&& final(game).end
                    &&& final(self).letters@ == old(self).letters@
                    &&& final(game).bag@ == old(game).bag@
                } else {
                    &&& final(game).end == old(game).end
                    &&& final(self).letters@.len() == ({
                        let held = old(self).letters@.len();
                        let kept = held - least(2, held as int);
                        kept + top_up(kept, old(game).bag@.len() + held - kept)
                    })
                }
            },
    {
        let mv = if first {
            self.place_best_first_word(game, dawg, rules, tie)
        } else {
            self.place_best_word(game, dawg, rules, tie)
        };
        if mv.score == 0 {
            if game.bag.is_empty() {
                game.end = true;
                return Move::none();
            } else {
                self.exchange_letters(game, 2);
            }
        }
        mv
    }
}

/// One turn of a game: the rack the player held, and the move that came of it.
#[derive(Debug)]
pub struct Turn {
    pub letters: Vec<char>,
    pub mv: Move,
}

/// A game that has been played: its turns in order, and how it stands.
#[derive(Debug)]
pub struct GameLog {
    pub turns: Vec<Turn>,
    pub game: Game,
    pub player: Player,
}

/// What the moves of `turns` score together.
pub open spec fn total_score(turns: Seq<Turn>) -> nat
    decreases turns.len(),
{
    if turns.len() == 0 {
        0
    } else {
        total_score(turns.drop_last()) + turns.last().mv@.score
    }
}

/// The letters that the moves of `turns` have put on the board.
pub open spec fn letters_placed(turns: Seq<Turn>) -> Multiset<char>
    decreases turns.len(),
{
    if turns.len() == 0 {
        Multiset::empty()
    } else {
        letters_placed(turns.drop_last()).add(letters_of(turns.last().mv@.used))
    }
}

/// The board after the moves of `turns` have been placed, one after another,
/// on an empty board.
pub open spec fn board_after(turns: Seq<Turn>) -> Seq<Seq<char>>
    decreases turns.len(),
{
    if turns.len() == 0 {
        blank_grid()
    } else {
        with_move(board_after(turns.drop_last()), turns.last().mv@)
    }
}

/// Plays a game of one player: the first move, and `n` turns after it.
/// Gives every turn and the state the game is left in. Each move is the
/// best one for the rack the turn began with, on the board as the turns
/// before left it. The score of the player is what the moves scored, and
/// every tile of the rules is in the bag, on the rack, or placed by one of
/// the moves.
pub fn play_game(dawg: &Dawg, rules: &Rules, n: u16, tie: TieBreak) -> (log: GameLog)
    ensures
        log.turns@.len() == n + 1,
        forall|i: int|
            0 <= i < log.turns@.len() ==> is_best(
                dawg@,
                rules@,
                board_after(log.turns@.take(i)),
                (#[trigger] log.turns@[i]).letters@,
                i == 0,
                tie,
                log.turns@[i].mv@,
            ),
        log.game.board@ == board_after(log.turns@),
        log.player.score == total_score(log.turns@),
        letters_of(log.player.letters@).add(log.game.bag@).add(letters_placed(log.turns@))
            == letters_of(rules@.tiles),
        forall|i: int| 0 <= i < log.turns@.len() ==> (#[trigger] log.turns@[i]).mv@.score <= MAX_MOVE_SCORE,
{
    broadcast use vstd::multiset::group_multiset_axioms;

    let mut game = Game::new(rules);
    let mut player = Player::new(&mut game);
    let mut turns: Vec<Turn> = Vec::new();
    let mut k: u32 = 0;
    proof {
        let grid = game.board@;
        assert forall|r: int| 0 <= r < 15 implies #[trigger] grid[r] == blank_grid()[r] by {
            assert forall|c: int| 0 <= c < 15 implies grid[r][c] == blank_grid()[r][c] by {
                assert(grid[r][c] == crate::rules::EMPTY);
            }
            assert(grid[r] =~= blank_grid()[r]);
        }
        assert(grid =~= blank_grid());
    }
    let rounds: u32 = n as u32 + 1;
    assert(letters_of(player.letters@).add(game.bag@).add(letters_placed(turns@)) =~= letters_of(
        rules@.tiles,
    ));
    while k < rounds
        invariant
            k <= rounds,
            rounds == n + 1,
            turns@.len() == k,
            grid_wf(game.board@),
            game.board@ == board_after(turns@),
            forall|i: int|
                0 <= i < turns@.len() ==> is_best(
                    dawg@,
                    rules@,
                    board_after(turns@.take(i)),
                    (#[trigger] turns@[i]).letters@,
                    i == 0,
                    tie,
                    turns@[i].mv@,
                ),
            player.score == total_score(turns@),
            player.score <= k * MAX_MOVE_SCORE,
            letters_of(player.letters@).add(game.bag@).add(letters_placed(turns@)) == letters_of(
                rules@.tiles,
            ),
            forall|i: int| 0 <= i < turns@.len() ==> (#[trigger] turns@[i]).mv@.score <= MAX_MOVE_SCORE,
        decreases rounds - k,
    {
        assert(k * MAX_MOVE_SCORE + MAX_MOVE_SCORE <= u64::MAX) by (nonlinear_arith)
            requires
                0 <= k <= 65536,
        ;
        let letters = player.letters.clone();
        assert(letters@ =~= player.letters@);
        let ghost before = turns@;
        let ghost rack = player.letters@;
        let ghost bag = game.bag@;
        let ghost grid = game.board@;
        let mv = player.make_move(&mut game, dawg, rules, k == 0, tie);
        proof {
            if mv@.score == 0 {
                let same = with_move(grid, mv@);
                assert forall|r: int| 0 <= r < 15 implies #[trigger] same[r] == grid[r] by {
                    assert(same[r] =~= grid[r]);
                }
                assert(same =~= grid);
            }
        }
        proof {
            if mv@.score == 0 {
                crate::bag::lemma_no_letters(mv@.used);
            }
            assert(letters_of(player.letters@).add(game.bag@).add(letters_of(mv@.used)) =~= letters_of(
                rack,
            ).add(bag));
        }
        turns.push(Turn { letters, mv });
        proof {
            assert(turns@.drop_last() =~= before);
            assert forall|i: int| 0 <= i < turns@.len() implies is_best(
                dawg@,
                rules@,
                board_after(turns@.take(i)),
                (#[trigger] turns@[i]).letters@,
                i == 0,
                tie,
                turns@[i].mv@,
            ) by {
                if i < k {
                    assert(turns@.take(i) =~= before.take(i));
                    assert(turns@[i] == before[i]);
                } else {
                    assert(turns@.take(i) =~= before);
                }
            }
            assert(letters_of(player.letters@).add(game.bag@).add(letters_placed(turns@))
                =~= letters_of(rules@.tiles));
            assert((k + 1) * MAX_MOVE_SCORE == k * MAX_MOVE_SCORE + MAX_MOVE_SCORE)
                by (nonlinear_arith);
        }
        k += 1;
    }
    GameLog { turns, game, player }
}

} // verus!

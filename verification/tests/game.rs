use scrablozaur::bag::{position, remove_letters, TileBag};
use scrablozaur::board::{Board, Move};
use scrablozaur::builder::build_dawg;
use scrablozaur::crossword::char_width;
use scrablozaur::game::{play_game, Game, MoveError, Player};
use scrablozaur::graph::Dawg;
use scrablozaur::placement::MAX_MOVE_SCORE;
use scrablozaur::rules::{Bonus, Rules, RulesError, BOARD_SIZE, EMPTY, RACK_SIZE};
use scrablozaur::placement::TieBreak;

fn dictionary(words: &[&str]) -> Dawg {
    let mut list: Vec<String> = words.iter().map(|w| w.to_string()).collect();
    list.sort();
    list.dedup();
    build_dawg(&list)
}

fn letters(s: &str) -> Vec<char> {
    s.chars().collect()
}

fn sorted(mut v: Vec<char>) -> Vec<char> {
    v.sort();
    v
}

fn rules_with(tiles: &str) -> Rules {
    let table = vec![('a', 1), ('c', 3), ('s', 1), ('t', 1), ('x', 8)];
    let bonuses = vec![Bonus { row: 7, col: 7, letter_multiplier: 1, word_multiplier: 2 }];
    Rules::new(table, bonuses, letters(tiles)).ok().unwrap()
}

fn game_with(board: Board, tiles: &str) -> Game {
    Game { board, bag: TileBag::new(letters(tiles)), end: false }
}

#[test]
fn rules_give_points_and_multipliers() {
    let rules = rules_with("cat");
    assert_eq!(rules.letter_points('c'), 3);
    assert_eq!(rules.letter_points('x'), 8);
    assert_eq!(rules.letter_points('q'), 0);
    assert_eq!(rules.multipliers(7, 7), (1, 2));
    assert_eq!(rules.multipliers(0, 0), (1, 1));
    assert_eq!(rules.tiles(), &letters("cat"));
}

#[test]
fn first_entry_for_a_letter_counts_and_last_entry_for_a_square() {
    let table = vec![('a', 1), ('a', 5)];
    let bonuses = vec![
        Bonus { row: 1, col: 2, letter_multiplier: 2, word_multiplier: 1 },
        Bonus { row: 1, col: 2, letter_multiplier: 3, word_multiplier: 4 },
    ];
    let rules = Rules::new(table, bonuses, Vec::new()).ok().unwrap();
    assert_eq!(rules.letter_points('a'), 1);
    assert_eq!(rules.multipliers(1, 2), (3, 4));
    assert_eq!(rules.multipliers(2, 1), (1, 1));
}

#[test]
fn rules_are_checked() {
    let ok = Bonus { row: 0, col: 0, letter_multiplier: 1, word_multiplier: 1 };
    let res = Rules::new(vec![('a', 1), ('b', 1001)], vec![ok], Vec::new());
    assert_eq!(res.err(), Some(RulesError::PointsTooHigh(1)));
    let res = Rules::new(vec![('a', 1000)], Vec::new(), Vec::new());
    assert!(res.is_ok());
    for bad in [
        Bonus { row: 15, col: 0, letter_multiplier: 1, word_multiplier: 1 },
        Bonus { row: 0, col: 15, letter_multiplier: 1, word_multiplier: 1 },
        Bonus { row: 0, col: 0, letter_multiplier: 0, word_multiplier: 1 },
        Bonus { row: 0, col: 0, letter_multiplier: 5, word_multiplier: 1 },
        Bonus { row: 0, col: 0, letter_multiplier: 1, word_multiplier: 0 },
        Bonus { row: 0, col: 0, letter_multiplier: 1, word_multiplier: 5 },
    ] {
        let res = Rules::new(vec![('a', 1)], vec![ok, bad], vec!['a']);
        assert_eq!(res.err(), Some(RulesError::BadBonus(1)));
    }
    let res = Rules::new(vec![('a', 1)], vec![ok], vec!['a', 'b', EMPTY]);
    assert_eq!(res.err(), Some(RulesError::BadTile(2)));
}

#[test]
fn board_starts_empty() {
    let board = Board::new();
    assert!(board.is_blank());
    for r in 0..BOARD_SIZE {
        for c in 0..BOARD_SIZE {
            assert_eq!(board.get(r, c), EMPTY);
        }
    }
    assert_eq!(board.rows().len(), 15);
    assert_eq!(board.row(3), vec![EMPTY; 15]);
}

#[test]
fn horizontal_and_vertical_words_go_where_they_say() {
    let mut board = Board::new();
    let across = Move { is_vertical: false, row: 7, col: 7, letters: letters("cat"), score: 10, used: letters("cat") };
    board.insert(&across);
    assert!(!board.is_blank());
    assert_eq!(board.get(7, 7), 'c');
    assert_eq!(board.get(7, 8), 'a');
    assert_eq!(board.get(7, 9), 't');
    assert_eq!(board.get(7, 6), EMPTY);
    assert_eq!(board.get(7, 10), EMPTY);
    assert_eq!(board.get(8, 7), EMPTY);
    let down = Move { is_vertical: true, row: 7, col: 9, letters: letters("tax"), score: 9, used: letters("ax") };
    board.insert(&down);
    assert_eq!(board.get(7, 9), 't');
    assert_eq!(board.get(8, 9), 'a');
    assert_eq!(board.get(9, 9), 'x');
    assert_eq!(board.get(9, 8), EMPTY);
    assert_eq!(board.get(7, 7), 'c');
    assert_eq!(board.column(9)[7..10], letters("tax")[..]);
    assert_eq!(board.row(7)[7..10], letters("cat")[..]);
    let flipped = board.transpose();
    assert_eq!(flipped.get(9, 7), 't');
    assert_eq!(flipped.get(9, 9), 'x');
    assert_eq!(flipped.get(7, 7), 'c');
    assert_eq!(flipped.get(8, 7), 'a');
    assert_eq!(flipped.transpose().rows(), board.rows());
    assert_eq!(board.clone().rows(), board.rows());
}

#[test]
fn a_move_fits_or_not() {
    let mv = |vertical: bool, row: usize, col: usize, word: &str| Move {
        is_vertical: vertical, row, col, letters: letters(word), score: 0, used: Vec::new(),
    };
    assert!(mv(false, 14, 12, "cat").fits());
    assert!(!mv(false, 14, 13, "cat").fits());
    assert!(!mv(false, 15, 0, "cat").fits());
    assert!(mv(true, 12, 14, "cat").fits());
    assert!(!mv(true, 13, 14, "cat").fits());
    assert!(!mv(true, 0, 15, "cat").fits());
    assert!(!mv(false, 0, usize::MAX, "cat").fits());
    assert!(Move::none().is_none());
    let mut high = mv(false, 0, 0, "cat");
    high.score = 7;
    let mut low = mv(true, 3, 3, "tax");
    low.score = 6;
    assert!(high.outscores(&low));
    assert!(!low.outscores(&high));
    assert!(!high.outscores(&high.clone()));
    assert_eq!(Move::none().word(), "");
    let copy = mv(true, 1, 2, "cat").clone();
    assert_eq!(copy, mv(true, 1, 2, "cat"));
}

#[test]
fn bag_hands_out_what_it_holds() {
    let mut bag = TileBag::new(letters("aabbc"));
    assert_eq!(bag.len(), 5);
    let drawn = bag.draw(3);
    assert_eq!(drawn.len(), 3);
    assert_eq!(bag.len(), 2);
    let mut all = drawn.clone();
    all.extend(bag.tiles().iter());
    assert_eq!(sorted(all), letters("aabbc"));
    let rest = bag.draw(7);
    assert_eq!(rest.len(), 2);
    assert!(bag.is_empty());
    assert_eq!(bag.draw(1), Vec::<char>::new());
    bag.give_back(&letters("xy"));
    assert_eq!(bag.len(), 2);
    assert_eq!(sorted(bag.tiles().clone()), letters("xy"));
}

#[test]
fn bag_takes_out_named_tiles_or_none() {
    let mut bag = TileBag::new(letters("aabbc"));
    assert!(bag.take(&letters("ba")));
    assert_eq!(sorted(bag.tiles().clone()), letters("abc"));
    assert!(!bag.take(&letters("aa")));
    assert_eq!(sorted(bag.tiles().clone()), letters("abc"));
    assert!(bag.take(&Vec::new()));
    assert!(bag.take(&letters("cba")));
    assert!(bag.is_empty());
}

#[test]
fn letters_are_found_copied_and_removed() {
    let rack = letters("abca");
    assert_eq!(position(&rack, 'a'), Some(0));
    assert_eq!(position(&rack, 'c'), Some(2));
    assert_eq!(position(&rack, 'z'), None);
    let mut left = letters("abca");
    assert!(remove_letters(&mut left, &letters("ca")));
    assert_eq!(left, letters("ba"));
    assert!(!remove_letters(&mut left, &letters("bb")));
    assert_eq!(left, letters("ba"));
    assert_eq!(char_width('a'), 1);
    assert_eq!(char_width('ż'), 2);
    assert_eq!(char_width('€'), 3);
    assert_eq!(char_width('𝄞'), 4);
}

#[test]
fn new_player_draws_a_full_rack() {
    let rules = rules_with("aaaaccccsssstttt");
    let mut game = Game::new(&rules);
    assert!(game.board.is_blank());
    assert!(!game.end);
    assert_eq!(game.bag.len(), 16);
    let player = Player::new(&mut game);
    assert_eq!(player.letters.len(), RACK_SIZE);
    assert_eq!(player.score, 0);
    assert_eq!(game.bag.len(), 9);
    let second = Player::new(&mut game);
    assert_eq!(second.letters.len(), 7);
    let third = Player::new(&mut game);
    assert_eq!(third.letters.len(), 2);
    assert!(game.bag.is_empty());
}

#[test]
fn refill_is_clipped_by_the_bag() {
    let mut game = game_with(Board::new(), "xyz");
    let mut player = Player { letters: letters("abcde"), score: 4 };
    player.get_new_letters(&mut game);
    assert_eq!(player.letters.len(), 7);
    assert_eq!(&player.letters[..5], &letters("abcde")[..]);
    assert_eq!(game.bag.len(), 1);
    assert_eq!(player.score, 4);
    let mut player = Player { letters: letters("ab"), score: 0 };
    player.get_new_letters(&mut game);
    assert_eq!(player.letters.len(), 3);
    assert!(game.bag.is_empty());
    assert_eq!(game.give_new_letters(&letters("abcdefgh")), Vec::<char>::new());
}

#[test]
fn exchange_keeps_every_letter() {
    let mut game = game_with(Board::new(), "xyz");
    let mut player = Player { letters: letters("abcdefg"), score: 0 };
    player.exchange_letters(&mut game, 2);
    assert_eq!(player.letters.len(), 7);
    assert_eq!(game.bag.len(), 3);
    let mut all = player.letters.clone();
    all.extend(game.bag.tiles().iter());
    assert_eq!(sorted(all), letters("abcdefgxyz"));
}

#[test]
fn giving_back_takes_from_the_end_of_the_rack() {
    let mut game = game_with(Board::new(), "");
    let mut player = Player { letters: letters("abc"), score: 0 };
    player.give_back_last(&mut game, 2);
    assert_eq!(player.letters, letters("a"));
    assert_eq!(sorted(game.bag.tiles().clone()), letters("bc"));
    player.give_back_last(&mut game, 5);
    assert!(player.letters.is_empty());
    assert_eq!(game.bag.len(), 3);
}

#[test]
fn applying_a_move_adds_its_score_and_refills_the_rack() {
    let mut game = game_with(Board::new(), "xyz");
    let mut player = Player { letters: letters("catsxxx"), score: 5 };
    let mv = Move { is_vertical: false, row: 7, col: 7, letters: letters("cats"), score: 12, used: letters("cats") };
    assert_eq!(player.apply(&mut game, &mv), Ok(()));
    assert_eq!(player.score, 17);
    // min(7, 7 - 4 + 3)
    assert_eq!(player.letters.len(), 6);
    assert!(game.bag.is_empty());
    assert_eq!(game.board.get(7, 10), 's');
    assert_eq!(&player.letters[..3], &letters("xxx")[..]);
}

#[test]
fn a_move_with_letters_not_on_the_rack_is_refused() {
    let mut game = game_with(Board::new(), "xyz");
    let mut player = Player { letters: letters("cat"), score: 5 };
    let mv = Move { is_vertical: false, row: 7, col: 7, letters: letters("cats"), score: 12, used: letters("cats") };
    assert_eq!(player.apply(&mut game, &mv), Err(MoveError::RackUnderflow));
    assert_eq!(player.letters, letters("cat"));
    assert_eq!(player.score, 5);
    assert!(game.board.is_blank());
    assert_eq!(game.bag.len(), 3);
    let off = Move { is_vertical: false, row: 7, col: 13, letters: letters("cat"), score: 1, used: letters("cat") };
    assert_eq!(player.apply(&mut game, &off), Err(MoveError::OffBoard));
    assert!(game.board.is_blank());
}

#[test]
fn first_turn_places_the_best_word() {
    let dawg = dictionary(&["cat"]);
    let rules = rules_with("");
    let mut game = game_with(Board::new(), "ss");
    let mut player = Player { letters: letters("catxxxx"), score: 0 };
    let mv = player.make_move(&mut game, &dawg, &rules, true, TieBreak::KeepLast);
    assert_eq!(mv.word(), "cat");
    assert_eq!(mv.score, 10);
    assert_eq!(player.score, 10);
    // min(7, 7 - 3 + 2)
    assert_eq!(player.letters.len(), 6);
    assert!(game.bag.is_empty());
    assert_eq!(game.board.row(7)[7..10], letters("cat")[..]);
    assert!(!game.end);
}

#[test]
fn cats_is_played_and_an_empty_bag_ends_the_game() {
    let dawg = dictionary(&["cat", "cats"]);
    let rules = rules_with("");
    let mut board = Board::new();
    board.insert(&Move { is_vertical: false, row: 7, col: 7, letters: letters("cat"), score: 0, used: Vec::new() });
    let mut game = game_with(board, "");
    let mut player = Player { letters: letters("s"), score: 10 };
    let mv = player.make_move(&mut game, &dawg, &rules, false, TieBreak::KeepLast);
    assert_eq!(mv.word(), "cats");
    assert_eq!(mv.score, 1);
    assert_eq!(player.score, 11);
    assert!(player.letters.is_empty());
    assert!(!game.end);
    assert_eq!(game.board.get(7, 10), 's');
    // nothing to play and nothing to draw: the game is over
    let mv = player.make_move(&mut game, &dawg, &rules, false, TieBreak::KeepLast);
    assert!(mv.is_none());
    assert!(game.end);
    assert_eq!(player.score, 11);
}

#[test]
fn a_turn_without_a_move_exchanges_letters() {
    let dawg = dictionary(&["cat"]);
    let rules = rules_with("");
    let mut game = game_with(Board::new(), "abc");
    let mut player = Player { letters: letters("xxxxxxx"), score: 3 };
    let mv = player.make_move(&mut game, &dawg, &rules, true, TieBreak::KeepFirst);
    assert!(mv.is_none());
    assert!(!game.end);
    assert_eq!(player.score, 3);
    assert_eq!(player.letters.len(), 7);
    assert_eq!(game.bag.len(), 3);
    assert!(game.board.is_blank());
    let mut all = player.letters.clone();
    all.extend(game.bag.tiles().iter());
    assert_eq!(sorted(all), letters("abcxxxxxxx"));
}

#[test]
fn a_played_game_keeps_its_books() {
    let dawg = dictionary(&["at", "cat", "cats", "sat", "tax", "ta", "as", "act", "acts", "cast", "scat"]);
    let rules = rules_with("aaaaaaccccssssttttttxx");
    for n in [0u16, 1, 6] {
        let log = play_game(&dawg, &rules, n, TieBreak::KeepLast);
        assert_eq!(log.turns.len(), n as usize + 1);
        let total: u64 = log.turns.iter().map(|t| t.mv.score).sum();
        assert_eq!(log.player.score, total);
        let mut all = log.player.letters.clone();
        all.extend(log.game.bag.tiles().iter());
        for turn in log.turns.iter() {
            assert!(turn.mv.score <= MAX_MOVE_SCORE);
            all.extend(turn.mv.used.iter());
            if !turn.mv.is_none() {
                assert!(dawg.lookup(&turn.mv.word()));
            }
        }
        assert_eq!(sorted(all), sorted(letters("aaaaaaccccssssttttttxx")));
        for grid in [log.game.board.rows(), log.game.board.transpose().rows()] {
            for row in grid.iter() {
                let text: String = row.iter().collect();
                for run in text.split('-') {
                    if run.chars().count() > 1 {
                        assert!(dawg.lookup(run), "{} is no word", run);
                    }
                }
            }
        }
    }
}

#[test]
fn exchange_shuffles_before_it_gives_back() {
    // With nothing in the bag the two letters given back are drawn again,
    // so the rack keeps its letters; only the shuffle can change which five
    // letters stay in front.
    let mut moved = false;
    for _ in 0..40 {
        let mut game = game_with(Board::new(), "");
        let mut player = Player { letters: letters("abcdefg"), score: 0 };
        player.exchange_letters(&mut game, 2);
        assert_eq!(player.letters.len(), 7);
        assert!(game.bag.is_empty());
        assert_eq!(sorted(player.letters.clone()), letters("abcdefg"));
        if player.letters[..5] != letters("abcde")[..] {
            moved = true;
        }
    }
    assert!(moved);
}

#[test]
fn the_root_is_the_last_node_and_leads_to_all() {
    let dawg = dictionary(&["at", "cat", "cats", "sat", "tax", "ta", "as", "act", "acts"]);
    assert_eq!(dawg.root() + 1, dawg.node_count());
    let mut seen = vec![false; dawg.node_count()];
    let mut pending = vec![dawg.root()];
    while let Some(i) = pending.pop() {
        if !seen[i] {
            seen[i] = true;
            for (_, target) in dawg.node(i).unwrap().edges().iter() {
                assert!(*target < i);
                pending.push(*target);
            }
        }
    }
    assert!(seen.iter().all(|s| *s));
}

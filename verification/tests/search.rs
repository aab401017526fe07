use scrablozaur::board::{Board, Move};
use scrablozaur::builder::build_dawg;
use scrablozaur::crossword::{check_crossword, crossword_in_spans};
use scrablozaur::graph::Dawg;
use scrablozaur::rules::{Bonus, Rules};
use scrablozaur::placement::TieBreak;
use scrablozaur::search::{find_first_words, find_words};

fn dictionary(words: &[&str]) -> Dawg {
    let mut list: Vec<String> = words.iter().map(|w| w.to_string()).collect();
    list.sort();
    list.dedup();
    build_dawg(&list)
}

fn points() -> Vec<(char, u16)> {
    vec![
        ('a', 1), ('b', 3), ('c', 3), ('d', 2), ('e', 1), ('g', 2), ('i', 1), ('n', 1), ('o', 1),
        ('r', 1), ('s', 1), ('t', 1), ('x', 8), ('z', 10),
    ]
}

fn rules() -> Rules {
    let bonuses = vec![
        Bonus { row: 7, col: 7, letter_multiplier: 1, word_multiplier: 2 },
        Bonus { row: 7, col: 3, letter_multiplier: 2, word_multiplier: 1 },
        Bonus { row: 7, col: 11, letter_multiplier: 2, word_multiplier: 1 },
        Bonus { row: 7, col: 0, letter_multiplier: 1, word_multiplier: 3 },
        Bonus { row: 7, col: 14, letter_multiplier: 1, word_multiplier: 3 },
        Bonus { row: 8, col: 8, letter_multiplier: 2, word_multiplier: 1 },
        Bonus { row: 6, col: 6, letter_multiplier: 2, word_multiplier: 1 },
        Bonus { row: 10, col: 10, letter_multiplier: 1, word_multiplier: 2 },
    ];
    Rules::new(points(), bonuses, vec!['a', 'b', 'c']).ok().unwrap()
}

fn chars(s: &str) -> Vec<char> {
    s.chars().collect()
}

fn place(board: &mut Board, vertical: bool, row: usize, col: usize, word: &str) {
    let mv = Move { is_vertical: vertical, row, col, letters: chars(word), score: 0, used: Vec::new() };
    assert!(mv.fits());
    board.insert(&mv);
}

#[test]
fn first_move_lays_cat_over_the_centre() {
    let dawg = dictionary(&["cat"]);
    let rules = rules();
    let rack = chars("catxxxx");
    let mv = find_first_words(&dawg, &rules, &rack, TieBreak::KeepLast);
    assert_eq!(mv.word(), "cat");
    assert!(!mv.is_vertical);
    assert_eq!(mv.row, 7);
    assert!(mv.col <= 7 && 7 < mv.col + 3);
    // c + a + t = 5, doubled by the centre square.
    assert_eq!(mv.score, 10);
    let mut used = mv.used.clone();
    used.sort();
    assert_eq!(used, chars("act"));
}

#[test]
fn tie_break_decides_between_equal_first_moves() {
    let dawg = dictionary(&["cat"]);
    let rules = rules();
    let rack = chars("catxxxx");
    let first = find_first_words(&dawg, &rules, &rack, TieBreak::KeepFirst);
    let last = find_first_words(&dawg, &rules, &rack, TieBreak::KeepLast);
    assert_eq!(first.score, 10);
    assert_eq!(last.score, 10);
    assert_eq!(first.col, 5);
    assert_eq!(last.col, 7);
}

#[test]
fn first_move_uses_premium_squares_of_the_centre_row() {
    let dawg = dictionary(&["cat", "tax"]);
    let rules = rules();
    let rack = chars("catxxxx");
    let mv = find_first_words(&dawg, &rules, &rack, TieBreak::KeepFirst);
    // "tax" scores (1 + 1 + 8) * 2 = 20 over the centre; no letter bonus is in reach.
    assert_eq!(mv.word(), "tax");
    assert_eq!(mv.score, 20);
}

#[test]
fn first_move_does_not_use_a_letter_twice() {
    let dawg = dictionary(&["aa", "tat"]);
    let rules = rules();
    let mv = find_first_words(&dawg, &rules, &chars("at"), TieBreak::KeepFirst);
    assert!(mv.is_none());
    assert_eq!(mv.score, 0);
    assert_eq!(mv.word(), "");
    let mv = find_first_words(&dawg, &rules, &chars("aat"), TieBreak::KeepFirst);
    assert_eq!(mv.word(), "aa");
    let mv = find_first_words(&dawg, &rules, &chars("att"), TieBreak::KeepFirst);
    assert_eq!(mv.word(), "tat");
}

#[test]
fn full_rack_gets_the_bonus() {
    let dawg = dictionary(&["senator"]);
    let rules = rules();
    let mv = find_first_words(&dawg, &rules, &chars("senator"), TieBreak::KeepFirst);
    assert_eq!(mv.word(), "senator");
    // Seven letters of one point each, doubled over the centre; the first start
    // found is at column 1, where the letter on column 3 counts twice: (7 + 1) * 2 + 50.
    assert_eq!(mv.col, 1);
    assert_eq!(mv.score, 66);
}

#[test]
fn no_word_no_move() {
    let dawg = dictionary(&["cat"]);
    let rules = rules();
    assert!(find_first_words(&dawg, &rules, &chars("xyz"), TieBreak::KeepLast).is_none());
    assert!(find_first_words(&dawg, &rules, &Vec::new(), TieBreak::KeepLast).is_none());
    let board = Board::new();
    // On an empty board nothing can be touched.
    assert!(find_words(&dawg, &rules, &board, &chars("cat"), TieBreak::KeepLast).is_none());
}

#[test]
fn cats_extends_cat() {
    let dawg = dictionary(&["cat", "cats"]);
    let rules = rules();
    let mut board = Board::new();
    place(&mut board, false, 7, 7, "cat");
    let mv = find_words(&dawg, &rules, &board, &chars("s"), TieBreak::KeepLast);
    assert_eq!(mv.word(), "cats");
    assert!(!mv.is_vertical);
    assert_eq!((mv.row, mv.col), (7, 7));
    // Only the new letter counts, and its square has no premium.
    assert_eq!(mv.score, 1);
    assert_eq!(mv.used, chars("s"));
    assert!(dawg.lookup(&mv.word()));
}

#[test]
fn new_letter_on_a_premium_square() {
    let dawg = dictionary(&["cat", "cats"]);
    let rules = rules();
    let mut board = Board::new();
    place(&mut board, false, 7, 8, "cat");
    // The s falls on column 11 of the centre row, which doubles the letter.
    let mv = find_words(&dawg, &rules, &board, &chars("s"), TieBreak::KeepLast);
    assert_eq!(mv.word(), "cats");
    assert_eq!((mv.row, mv.col), (7, 8));
    assert_eq!(mv.score, 2);
}

#[test]
fn vertical_word_through_a_letter_on_the_board() {
    let dawg = dictionary(&["cat", "tax"]);
    let rules = rules();
    let mut board = Board::new();
    place(&mut board, false, 7, 7, "cat");
    let mv = find_words(&dawg, &rules, &board, &chars("ax"), TieBreak::KeepLast);
    assert_eq!(mv.word(), "tax");
    assert!(mv.is_vertical);
    assert_eq!((mv.row, mv.col), (7, 9));
    assert_eq!(mv.score, 9);
    let mut after = board.clone();
    after.insert(&mv);
    assert_eq!(after.get(8, 9), 'a');
    assert_eq!(after.get(9, 9), 'x');
    assert_eq!(after.get(7, 9), 't');
}

#[test]
fn words_formed_across_are_checked_and_scored() {
    let dawg = dictionary(&["at", "ca", "cat"]);
    let rules = rules();
    let mut board = Board::new();
    place(&mut board, false, 7, 7, "cat");
    let mv = find_words(&dawg, &rules, &board, &chars("at"), TieBreak::KeepFirst);
    // "at" under "ca": the t lies on (8, 8), which doubles it. The word scores
    // 1 + 2; across, "ca" scores 3 + 1 and "at" scores 1 + 1 + 1 for the doubled t.
    assert_eq!(mv.word(), "at");
    assert!(!mv.is_vertical);
    assert_eq!((mv.row, mv.col), (8, 7));
    assert_eq!(mv.score, 3 + 4 + 3);
}

#[test]
fn a_word_across_that_is_no_word_stops_the_placement() {
    let dawg = dictionary(&["at", "cat"]);
    let rules = rules();
    let mut board = Board::new();
    place(&mut board, false, 7, 7, "cat");
    // Without "ca" in the graph "at" cannot lie under "ca". The best that is
    // left is "at" above the end of "cat", its a on top of the t: the word
    // scores 1 + 1, and "at" across scores 1 + 1.
    let mv = find_words(&dawg, &rules, &board, &chars("at"), TieBreak::KeepFirst);
    assert_eq!(mv.word(), "at");
    assert!(!mv.is_vertical);
    assert_eq!((mv.row, mv.col), (6, 9));
    assert_eq!(mv.score, 4);
}

#[test]
fn every_move_found_is_a_word_of_the_graph() {
    let words = ["at", "ca", "cat", "cats", "cast", "sat", "scat", "tsar", "star", "rat", "rats", "art"];
    let dawg = dictionary(&words);
    let rules = rules();
    let mut board = Board::new();
    place(&mut board, false, 7, 7, "cat");
    place(&mut board, true, 7, 9, "tsar");
    for rack in ["s", "st", "rat", "cast", "xz", "aastr"] {
        for tie in [TieBreak::KeepFirst, TieBreak::KeepLast] {
            let mv = find_words(&dawg, &rules, &board, &chars(rack), tie);
            if !mv.is_none() {
                assert!(dawg.lookup(&mv.word()), "{} is no word", mv.word());
                assert!(mv.fits());
                let mut left = chars(rack);
                for l in mv.used.iter() {
                    let at = left.iter().position(|x| x == l).expect("letter not on the rack");
                    left.remove(at);
                }
                let mut after = board.clone();
                after.insert(&mv);
                // every run of two or more letters on the board is a word
                for grid in [after.rows(), after.transpose().rows()] {
                    for row in grid.iter() {
                        let text: String = row.iter().collect();
                        for run in text.split('-') {
                            if run.chars().count() > 1 {
                                assert!(dawg.lookup(run), "{} is no word", run);
                            }
                        }
                    }
                }
            }
        }
    }
}

#[test]
fn crossword_check_takes_the_run_through_the_new_letter() {
    let dawg = dictionary(&["at", "cat", "żal"]);
    let rules = rules();
    let column = chars("-at---cat------");
    assert_eq!(check_crossword(&dawg, &rules, &column, 7, 7, 3), (true, 5 + 1));
    assert_eq!(check_crossword(&dawg, &rules, &column, 7, 7, 7), (true, 10));
    assert_eq!(check_crossword(&dawg, &rules, &column, 1, 1, 1), (true, 2));
    assert_eq!(check_crossword(&dawg, &rules, &column, 2, 8, 8), (true, 3));
    // an empty square forms no word
    assert_eq!(check_crossword(&dawg, &rules, &column, 0, 0, 0), (false, 0));
    // a run that is no word
    let column = chars("-ta------------");
    assert_eq!(check_crossword(&dawg, &rules, &column, 1, 1, 1), (false, 0));
    // a line of the wrong length
    assert_eq!(check_crossword(&dawg, &rules, &chars("at"), 0, 0, 0), (false, 0));
    // letters of more than one byte shift the byte offsets of the matches
    let column = chars("żal-at---------");
    assert_eq!(check_crossword(&dawg, &rules, &column, 1, 1, 1), (true, 1));
    assert_eq!(check_crossword(&dawg, &rules, &column, 4, 4, 4), (true, 2));
}

#[test]
fn crossword_check_goes_by_the_matches_it_is_given() {
    let dawg = dictionary(&["at"]);
    let rules = rules();
    let column = chars("-at------------");
    assert_eq!(crossword_in_spans(&dawg, &rules, &column, &vec![(1, 3)], 1, 1, 1), (true, 2));
    assert_eq!(crossword_in_spans(&dawg, &rules, &column, &vec![(0, 1), (1, 3)], 2, 2, 1), (true, 2));
    assert_eq!(crossword_in_spans(&dawg, &rules, &column, &vec![(1, 2)], 1, 1, 1), (false, 0));
    assert_eq!(crossword_in_spans(&dawg, &rules, &column, &Vec::new(), 1, 1, 1), (false, 0));
}

#[test]
fn tie_break_decides_between_equal_moves_on_the_board() {
    let dawg = dictionary(&["at", "cat", "ta"]);
    let rules = rules();
    let mut board = Board::new();
    place(&mut board, false, 7, 7, "cat");
    // Two moves score one point, both down column 9: "at" from row 6 and
    // "ta" from row 7. The search comes to "at" first.
    let first = find_words(&dawg, &rules, &board, &chars("a"), TieBreak::KeepFirst);
    let last = find_words(&dawg, &rules, &board, &chars("a"), TieBreak::KeepLast);
    assert_eq!((first.word(), first.is_vertical, first.row, first.col, first.score), ("at".to_string(), true, 6, 9, 1));
    assert_eq!((last.word(), last.is_vertical, last.row, last.col, last.score), ("ta".to_string(), true, 7, 9, 1));
}

#[test]
fn of_equal_moves_from_one_place_the_order_of_words_decides() {
    let dawg = dictionary(&["ab", "ac"]);
    let table = vec![('a', 1), ('b', 1), ('c', 1)];
    let rules = Rules::new(table, Vec::new(), Vec::new()).ok().unwrap();
    let first = find_first_words(&dawg, &rules, &chars("abc"), TieBreak::KeepFirst);
    let last = find_first_words(&dawg, &rules, &chars("abc"), TieBreak::KeepLast);
    assert_eq!((first.word(), first.col), ("ab".to_string(), 6));
    assert_eq!((last.word(), last.col), ("ac".to_string(), 7));
}

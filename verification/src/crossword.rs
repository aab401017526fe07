//! The word that a newly placed letter forms across the line it is placed
//! in: the unbroken run of letters through its square in the other direction.

use crate::graph::{Dawg, DawgModel};
use crate::rules::{Rules, RulesModel, BOARD_SIZE, EMPTY, MAX_LETTER_POINTS};
use crate::text::from_chars;
use regex::Regex;
use vstd::prelude::*;

verus! {

/// Where the unbroken run of letters through `at` begins.
pub open spec fn run_start(line: Seq<char>, at: int) -> int
    decreases at,
{
    if 0 < at <= line.len() && line[at - 1] != EMPTY {
        run_start(line, at - 1)
    } else {
        at
    }
}

/// Where the unbroken run of letters through `at` ends: the place after its
/// last letter.
pub open spec fn run_end(line: Seq<char>, at: int) -> int
    decreases line.len() - at,
{
    if 0 <= at + 1 < line.len() && line[at + 1] != EMPTY {
        run_end(line, at + 1)
    } else {
        at + 1
    }
}

/// The letters of the unbroken run through `at`.
pub open spec fn cross_word(line: Seq<char>, at: int) -> Seq<char> {
    line.subrange(run_start(line, at), run_end(line, at))
}

/// How many bytes a character takes as text.
pub open spec fn utf8_len(c: char) -> nat {
    if (c as u32) < 0x80 {
        1
    } else if (c as u32) < 0x800 {
        2
    } else if (c as u32) < 0x10000 {
        3
    } else {
        4
    }
}

/// How many bytes the first `k` characters of `line` take as text.
pub open spec fn byte_offset(line: Seq<char>, k: int) -> nat
    decreases k,
{
    if k <= 0 {
        0
    } else {
        byte_offset(line, k - 1) + utf8_len(line[k - 1])
    }
}

/// What the regular expression `\w+` matches in `text`, one after another:
/// for each match the byte offsets of its start and of its end.
pub uninterp spec fn word_spans(text: Seq<char>) -> Seq<(usize, usize)>;

/// Whether the run through `at` is one of the matches `spans`.
pub open spec fn recognised(line: Seq<char>, spans: Seq<(usize, usize)>, at: int) -> bool {
    spans.contains(
        (
            byte_offset(line, run_start(line, at)) as usize,
            byte_offset(line, run_end(line, at)) as usize,
        ),
    )
}

/// What the letters of `word` are worth together.
pub open spec fn points_sum(rules: RulesModel, word: Seq<char>) -> nat
    decreases word.len(),
{
    if word.len() == 0 {
        0
    } else {
        points_sum(rules, word.drop_last()) + rules.letter_points(word.last())
    }
}

/// What the run through `at` scores: the points of all its letters, the
/// letter at `at` counted with the letter multiplier of its square, and the
/// sum multiplied by the word multiplier of that square.
pub open spec fn cross_points(rules: RulesModel, line: Seq<char>, at: int, row: int, col: int) -> nat {
    ((points_sum(rules, cross_word(line, at)) + rules.letter_points(line[at]) * (
    rules.letter_multiplier(row, col) - 1)) * rules.word_multiplier(row, col)) as nat
}

/// Whether a check of the run through `at` is asked for on sound terms: a
/// line of the board's length, a letter at `at`, a square on the board.
pub open spec fn checkable(line: Seq<char>, at: int, row: int, col: int) -> bool {
    &&& line.len() == BOARD_SIZE
    &&& 0 <= at < BOARD_SIZE
    &&& line[at] != EMPTY
    &&& 0 <= row < BOARD_SIZE
    &&& 0 <= col < BOARD_SIZE
}

/// Whether the run through `at` stands as a word, given the matches `spans`
/// of the line: it is one of the matches and the graph accepts it.
pub open spec fn cross_valid(
    dawg: DawgModel,
    line: Seq<char>,
    spans: Seq<(usize, usize)>,
    at: int,
    row: int,
    col: int,
) -> bool {
    &&& checkable(line, at, row, col)
    &&& recognised(line, spans, at)
    &&& dawg.accepts(cross_word(line, at))
}

/// The most a cross-word can score.
pub const MAX_CROSS_POINTS: u64 = 72000;

proof fn lemma_run_bounds(line: Seq<char>, at: int)
    requires
        0 <= at < line.len(),
    ensures
        0 <= run_start(line, at) <= at,
        at < run_end(line, at) <= line.len(),
        forall|i: int| run_start(line, at) <= i < at ==> line[i] != EMPTY,
        forall|i: int| at < i < run_end(line, at) ==> line[i] != EMPTY,
{
    lemma_run_start(line, at);
    lemma_run_end(line, at);
}

proof fn lemma_run_start(line: Seq<char>, at: int)
    requires
        0 <= at <= line.len(),
    ensures
        0 <= run_start(line, at) <= at,
        forall|i: int| run_start(line, at) <= i < at ==> line[i] != EMPTY,
    decreases at,
{
    if 0 < at && line[at - 1] != EMPTY {
        lemma_run_start(line, at - 1);
    }
}

proof fn lemma_run_end(line: Seq<char>, at: int)
    requires
        0 <= at < line.len(),
    ensures
        at < run_end(line, at) <= line.len(),
        forall|i: int| at < i < run_end(line, at) ==> line[i] != EMPTY,
    decreases line.len() - at,
{
    if at + 1 < line.len() && line[at + 1] != EMPTY {
        lemma_run_end(line, at + 1);
    }
}

proof fn lemma_byte_offset_bound(line: Seq<char>, k: int)
    requires
        0 <= k,
    ensures
        byte_offset(line, k) <= 4 * k,
    decreases k,
{
    if k > 0 {
        lemma_byte_offset_bound(line, k - 1);
    }
}

/// A word is worth no more than its length allows.
proof fn lemma_points_sum_bound(rules: RulesModel, word: Seq<char>)
    requires
        rules.wf(),
    ensures
        points_sum(rules, word) <= MAX_LETTER_POINTS * word.len(),
    decreases word.len(),
{
    if word.len() > 0 {
        lemma_points_sum_bound(rules, word.drop_last());
        assert(rules.points[word.last()] <= MAX_LETTER_POINTS);
    }
}

/// No cross-word scores more than `MAX_CROSS_POINTS`.
pub(crate) proof fn lemma_cross_points_bound(rules: RulesModel, line: Seq<char>, at: int, row: int, col: int)
    requires
        rules.wf(),
        checkable(line, at, row, col),
    ensures
        cross_points(rules, line, at, row, col) <= MAX_CROSS_POINTS,
{
    lemma_run_bounds(line, at);
    let word = cross_word(line, at);
    lemma_points_sum_bound(rules, word);
    let lm = rules.letter_multiplier(row, col);
    let wm = rules.word_multiplier(row, col);
    let p = rules.letter_points(line[at]);
    assert(p <= MAX_LETTER_POINTS);
    assert(0 <= row * 15 + col < 225) by (nonlinear_arith)
        requires
            0 <= row < 15,
            0 <= col < 15,
    ;
    assert(1 <= lm <= 4);
    assert(1 <= wm <= 4);
    assert(word.len() <= 15);
    let sum = points_sum(rules, word);
    assert(sum <= 15000) by (nonlinear_arith)
        requires
            sum <= 1000 * word.len(),
            word.len() <= 15,
    ;
    assert((sum + p * (lm - 1)) * wm <= 72000) by (nonlinear_arith)
        requires
            0 <= sum <= 15000,
            0 <= p <= 1000,
            1 <= lm <= 4,
            1 <= wm <= 4,
    ;
}

/// The crate `regex`: the pattern `\w+` is compiled with `Regex::new` and
/// run over `text` with `Regex::find_iter`; each match gives the byte offsets
/// `Match::start` and `Match::end`. The matches depend on the text alone and
/// are named `word_spans`; nothing else is claimed of them.
#[verifier::external_body]
fn find_word_spans(text: &str) -> (spans: Vec<(usize, usize)>)
    ensures
        spans@ == word_spans(text@),
{
    let pattern = Regex::new(r"\w+").unwrap();
    pattern.find_iter(text).map(|m| (m.start(), m.end())).collect()
}

/// How many bytes `c` takes as text.
pub fn char_width(c: char) -> (n: usize)
    ensures
        n == utf8_len(c),
{
    let v = c as u32;
    if v < 0x80 {
        1
    } else if v < 0x800 {
        2
    } else if v < 0x10000 {
        3
    } else {
        4
    }
}

/// Judges the run of letters through `at` in `line`, `spans` being the
/// matches that the word pattern has in the line: whether the run stands as
/// a word, and what it scores if it does. The letter at `at` is the new
/// one; it lies on the square `row`, `col` of the board, whose multipliers
/// count for it.
pub fn crossword_in_spans(
    dawg: &Dawg,
    rules: &Rules,
    line: &Vec<char>,
    spans: &Vec<(usize, usize)>,
    at: usize,
    row: usize,
    col: usize,
) -> (res: (bool, u64))
    ensures
        res.0 == cross_valid(dawg@, line@, spans@, at as int, row as int, col as int),
        res.0 ==> res.1 == cross_points(rules@, line@, at as int, row as int, col as int),
        !res.0 ==> res.1 == 0,
        res.1 <= MAX_CROSS_POINTS,
{
    if line.len() != BOARD_SIZE || at >= BOARD_SIZE || row >= BOARD_SIZE || col >= BOARD_SIZE {
        return (false, 0);
    }
    if line[at] == EMPTY {
        return (false, 0);
    }
    let mut start: usize = at;
    while start > 0 && line[start - 1] != EMPTY
        invariant
            start <= at < line@.len(),
            run_start(line@, at as int) == run_start(line@, start as int),
        decreases start,
    {
        start -= 1;
    }
    let mut end: usize = at + 1;
    while end < line.len() && line[end] != EMPTY
        invariant
            at < end <= line@.len(),
            run_end(line@, at as int) == run_end(line@, end as int - 1),
        decreases line@.len() - end,
    {
        end += 1;
    }
    let mut word: Vec<char> = Vec::new();
    let mut sum: u64 = 0;
    let mut first_byte: usize = 0;
    let mut last_byte: usize = 0;
    let mut i: usize = 0;
    let (lm, wm) = rules.multipliers(row, col);
    while i < end
        invariant
            i <= end <= line@.len() == 15,
            start <= at < end,
            rules@.wf(),
            last_byte == byte_offset(line@, i as int),
            last_byte <= 4 * i,
            i <= start ==> first_byte == last_byte,
            i > start ==> first_byte == byte_offset(line@, start as int),
            i <= start ==> word@.len() == 0 && sum == 0,
            i > start ==> word@ == line@.subrange(start as int, i as int),
            sum == points_sum(rules@, word@),
            sum <= 1000 * i,
        decreases end - i,
    {
        if i >= start {
            let c = line[i];
            let p = rules.letter_points(c);
            proof {
                let next = line@.subrange(start as int, i as int + 1);
                assert(next.drop_last() =~= word@);
                assert(next.last() == c);
            }
            let ghost before = word@;
            word.push(c);
            assert(word@.drop_last() =~= before);
            sum += p as u64;
        }
        last_byte += char_width(line[i]);
        if i < start {
            first_byte = last_byte;
        }
        i += 1;
    }
    let mut known = false;
    let mut k: usize = 0;
    while k < spans.len()
        invariant
            k <= spans.len(),
            known == spans@.take(k as int).contains((first_byte, last_byte)),
        decreases spans.len() - k,
    {
        let span = spans[k];
        proof {
            assert(spans@.take(k as int + 1) =~= spans@.take(k as int).push(span));
            vstd::seq_lib::lemma_seq_contains_after_push(
                spans@.take(k as int),
                span,
                (first_byte, last_byte),
            );
        }
        if span.0 == first_byte && span.1 == last_byte {
            known = true;
        }
        k += 1;
    }
    proof {
        assert(spans@.take(spans@.len() as int) =~= spans@);
        assert(word@ == cross_word(line@, at as int));
        lemma_cross_points_bound(rules@, line@, at as int, row as int, col as int);
    }
    if !known {
        return (false, 0);
    }
    if !dawg.lookup_chars(&word) {
        return (false, 0);
    }
    let p = rules.letter_points(line[at]) as u64;
    assert(p * (lm - 1) <= 3000) by (nonlinear_arith)
        requires
            0 <= p <= 1000,
            1 <= lm <= 4,
    ;
    let bonus = p * ((lm - 1) as u64);
    assert((sum + bonus) * wm <= 72000) by (nonlinear_arith)
        requires
            0 <= sum <= 15000,
            0 <= bonus <= 3000,
            1 <= wm <= 4,
    ;
    let total = (sum + bonus) * (wm as u64);
    (true, total)
}

/// Checks the word that the letter at `at` forms across its line: `column`
/// is the line in the other direction, the new letter already in it. Gives
/// whether the run through `at` stands as a word, and what it scores if it
/// does.
pub fn check_crossword(
    dawg: &Dawg,
    rules: &Rules,
    column: &Vec<char>,
    at: usize,
    row: usize,
    col: usize,
) -> (res: (bool, u64))
    ensures
        res.0 == cross_valid(
            dawg@,
            column@,
            word_spans(column@),
            at as int,
            row as int,
            col as int,
        ),
        res.0 ==> res.1 == cross_points(rules@, column@, at as int, row as int, col as int),
        res.0 ==> dawg@.accepts(cross_word(column@, at as int)),
        !res.0 ==> res.1 == 0,
        res.1 <= MAX_CROSS_POINTS,
{
    let text = from_chars(column);
    let spans = find_word_spans(text.as_str());
    crossword_in_spans(dawg, rules, column, &spans, at, row, col)
}

} // verus!

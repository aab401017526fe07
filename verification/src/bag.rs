//! The bag of tiles: a multiset of letters, drawn from at random without
//! replacement and given back to on an exchange.

use rand::rngs::ThreadRng;
use rand::seq::SliceRandom;
use vstd::multiset::Multiset;
use vstd::prelude::*;

verus! {

/// The letters of `s`, each as often as it occurs.
pub open spec fn letters_of(s: Seq<char>) -> Multiset<char> {
    s.to_multiset()
}

/// The smaller of two numbers.
pub open spec fn least(a: int, b: int) -> int {
    if a <= b {
        a
    } else {
        b
    }
}

/// The letters of the beginning of a sequence are among the letters of the
/// whole.
pub(crate) proof fn lemma_take_letters(s: Seq<char>, n: int)
    requires
        0 <= n <= s.len(),
    ensures
        letters_of(s.take(n)).subset_of(letters_of(s)),
        letters_of(s) == letters_of(s.take(n)).add(letters_of(s.skip(n))),
{
    broadcast use vstd::multiset::group_multiset_axioms;

    vstd::seq_lib::lemma_multiset_commutative(s.take(n), s.skip(n));
    assert(s.take(n) + s.skip(n) =~= s);
}

/// A sequence without elements holds no letters.
pub(crate) proof fn lemma_no_letters(s: Seq<char>)
    requires
        s.len() == 0,
    ensures
        letters_of(s) == Multiset::<char>::empty(),
{
    vstd::seq_lib::to_multiset_len(s);
    vstd::multiset::lemma_multiset_empty_len(letters_of(s));
    assert(letters_of(s) =~= Multiset::<char>::empty());
}

/// The random number generator of `rand` that belongs to the thread.
#[verifier::external_type_specification]
#[verifier::external_body]
pub struct ExThreadRng(ThreadRng);

/// `rand::thread_rng` hands out the generator of the current thread. Nothing
/// is claimed of it.
pub assume_specification[ rand::thread_rng ]() -> (rng: ThreadRng)
;

/// `rand`'s `choose_multiple` on the slice of `tiles`: `amount` elements of
/// the slice, or all of them where it holds fewer, taken from distinct places
/// and handed out in random order. Which ones is left open; what is claimed
/// is their number, and that no letter comes out more often than the slice
/// holds it.
#[verifier::external_body]
fn choose_tiles(tiles: &Vec<char>, amount: usize, rng: &mut ThreadRng) -> (picked: Vec<char>)
    ensures
        picked@.len() == least(amount as int, tiles@.len() as int),
        letters_of(picked@).subset_of(letters_of(tiles@)),
{
    tiles.choose_multiple(rng, amount).cloned().collect()
}

/// `rand`'s `shuffle`: the letters are put in a random order in place. What
/// is claimed is that they are the same letters.
#[verifier::external_body]
pub(crate) fn shuffle_letters(letters: &mut Vec<char>, rng: &mut ThreadRng)
    ensures
        letters_of(final(letters)@) == letters_of(old(letters)@),
        final(letters)@.len() == old(letters)@.len(),
{
    letters.shuffle(rng);
}

/// The first place of `letter` in `letters`, if it occurs there.
pub fn position(letters: &Vec<char>, letter: char) -> (at: Option<usize>)
    ensures
        match at {
            Some(i) => {
                &&& i < letters@.len()
                &&& letters@[i as int] == letter
                &&& forall|j: int| 0 <= j < i ==> letters@[j] != letter
            },
            None => letters_of(letters@).count(letter) == 0,
        },
{
    let mut i: usize = 0;
    while i < letters.len()
        invariant
            i <= letters.len(),
            forall|j: int| 0 <= j < i ==> letters@[j] != letter,
        decreases letters.len() - i,
    {
        if letters[i] == letter {
            return Some(i);
        }
        i += 1;
    }
    proof {
        vstd::seq_lib::to_multiset_contains(letters@, letter);
        if letters@.contains(letter) {
            let j = choose|j: int| 0 <= j < letters@.len() && letters@[j] == letter;
            assert(false);
        }
    }
    None
}

/// `letters` without `letter` at the first place where it stands.
pub open spec fn strike(letters: Seq<char>, letter: char) -> Seq<char>
    decreases letters.len(),
{
    if letters.len() == 0 {
        letters
    } else if letters[0] == letter {
        letters.drop_first()
    } else {
        seq![letters[0]] + strike(letters.drop_first(), letter)
    }
}

/// `letters` after each letter of `wanted`, one after another, has been
/// struck at the first place where it stands.
pub open spec fn strike_all(letters: Seq<char>, wanted: Seq<char>) -> Seq<char>
    decreases wanted.len(),
{
    if wanted.len() == 0 {
        letters
    } else {
        strike(strike_all(letters, wanted.drop_last()), wanted.last())
    }
}

/// Striking a letter removes it at its first place.
proof fn lemma_strike(letters: Seq<char>, letter: char, at: int)
    requires
        0 <= at < letters.len(),
        letters[at] == letter,
        forall|j: int| 0 <= j < at ==> letters[j] != letter,
    ensures
        strike(letters, letter) == letters.remove(at),
    decreases at,
{
    if at == 0 {
        assert(letters.remove(0) =~= letters.drop_first());
    } else {
        let rest = letters.drop_first();
        assert forall|j: int| 0 <= j < at - 1 implies rest[j] != letter by {
            assert(rest[j] == letters[j + 1]);
        }
        lemma_strike(rest, letter, at - 1);
        assert(letters.remove(at) =~= seq![letters[0]] + rest.remove(at - 1));
    }
}

/// Takes the letters `wanted` out of `letters`, each from the first place
/// where it stands, if all of them are there; otherwise takes none.
pub fn remove_letters(letters: &mut Vec<char>, wanted: &Vec<char>) -> (done: bool)
    ensures
        done == letters_of(wanted@).subset_of(letters_of(old(letters)@)),
        done ==> final(letters)@ == strike_all(old(letters)@, wanted@),
        done ==> letters_of(final(letters)@) == letters_of(old(letters)@).sub(letters_of(wanted@)),
        done ==> final(letters)@.len() == old(letters)@.len() - wanted@.len(),
        !done ==> final(letters)@ == old(letters)@,
{
    broadcast use vstd::multiset::group_multiset_axioms;

    let mut rest = letters.clone();
    assert(rest@ =~= letters@);
    let mut i: usize = 0;
    proof {
        lemma_no_letters(wanted@.take(0));
    }
    while i < wanted.len()
        invariant
            i <= wanted.len(),
            letters@ == old(letters)@,
            letters_of(wanted@.take(i as int)).subset_of(letters_of(letters@)),
            letters_of(rest@) == letters_of(letters@).sub(letters_of(wanted@.take(i as int))),
            rest@.len() == letters@.len() - i,
            rest@ == strike_all(letters@, wanted@.take(i as int)),
        decreases wanted.len() - i,
    {
        let letter = wanted[i];
        proof {
            assert(wanted@.take(i as int + 1) =~= wanted@.take(i as int).push(letter));
            assert(wanted@.take(i as int + 1).drop_last() =~= wanted@.take(i as int));
            vstd::seq_lib::to_multiset_build(wanted@.take(i as int), letter);
            lemma_take_letters(wanted@, i as int + 1);
        }
        match position(&rest, letter) {
            Some(at) => {
                proof {
                    vstd::seq_lib::to_multiset_remove(rest@, at as int);
                    vstd::seq_lib::to_multiset_contains(rest@, letter);
                    lemma_strike(rest@, letter, at as int);
                    assert(rest@.contains(letter));
                    assert(letters_of(rest@).count(letter) > 0);
                }
                rest.remove(at);
                proof {
                    assert(letters_of(rest@) =~= letters_of(letters@).sub(
                        letters_of(wanted@.take(i as int + 1)),
                    ));
                    assert(letters_of(wanted@.take(i as int + 1)).subset_of(letters_of(letters@)));
                }
            },
            None => {
                proof {
                    assert(letters_of(wanted@.take(i as int + 1)).count(letter) > letters_of(
                        letters@,
                    ).count(letter));
                    assert(!letters_of(wanted@).subset_of(letters_of(letters@)));
                }
                return false;
            },
        }
        i += 1;
    }
    assert(wanted@.take(wanted@.len() as int) =~= wanted@);
    *letters = rest;
    true
}

/// The bag of tiles.
#[derive(Debug)]
pub struct TileBag {
    tiles: Vec<char>,
}

impl View for TileBag {
    type V = Multiset<char>;

    closed spec fn view(&self) -> Multiset<char> {
        letters_of(self.tiles@)
    }
}

impl TileBag {
    /// A bag that holds `tiles`.
    pub fn new(tiles: Vec<char>) -> (bag: TileBag)
        ensures
            bag@ == letters_of(tiles@),
    {
        TileBag { tiles }
    }

    /// How many tiles are left.
    pub fn len(&self) -> (n: usize)
        ensures
            n == self@.len(),
    {
        proof {
            vstd::seq_lib::to_multiset_len(self.tiles@);
        }
        self.tiles.len()
    }

    /// Whether no tile is left.
    pub fn is_empty(&self) -> (empty: bool)
        ensures
            empty == (self@.len() == 0),
    {
        self.len() == 0
    }

    /// The tiles in the bag, in no meaningful order.
    pub fn tiles(&self) -> (tiles: &Vec<char>)
        ensures
            letters_of(tiles@) == self@,
    {
        &self.tiles
    }

    /// Takes the tiles `picked` out of the bag if it holds them all, and
    /// none of them otherwise.
    pub fn take(&mut self, picked: &Vec<char>) -> (done: bool)
        ensures
            done == letters_of(picked@).subset_of(old(self)@),
            done ==> final(self)@ == old(self)@.sub(letters_of(picked@)),
            done ==> final(self)@.len() == old(self)@.len() - picked@.len(),
            !done ==> final(self)@ == old(self)@,
    {
        proof {
            vstd::seq_lib::to_multiset_len(self.tiles@);
        }
        let done = remove_letters(&mut self.tiles, picked);
        proof {
            vstd::seq_lib::to_multiset_len(self.tiles@);
        }
        done
    }

    /// Draws `count` tiles at random, or all that are left where the bag
    /// holds fewer. The tiles drawn leave the bag.
    pub fn draw(&mut self, count: usize) -> (drawn: Vec<char>)
        ensures
            drawn@.len() == least(count as int, old(self)@.len() as int),
            letters_of(drawn@).subset_of(old(self)@),
            final(self)@ == old(self)@.sub(letters_of(drawn@)),
            final(self)@.len() == old(self)@.len() - drawn@.len(),
    {
        proof {
            vstd::seq_lib::to_multiset_len(self.tiles@);
        }
        let mut rng = rand::thread_rng();
        let drawn = choose_tiles(&self.tiles, count, &mut rng);
        let done = self.take(&drawn);
        assert(done);
        drawn
    }

    /// Puts `letters` back into the bag.
    pub fn give_back(&mut self, letters: &Vec<char>)
        ensures
            final(self)@ == old(self)@.add(letters_of(letters@)),
            final(self)@.len() == old(self)@.len() + letters@.len(),
    {
        broadcast use vstd::multiset::group_multiset_axioms;

        let mut i: usize = 0;
        proof {
            lemma_no_letters(letters@.take(0));
        }
        assert(self@.add(Multiset::empty()) =~= self@);
        proof {
            vstd::seq_lib::to_multiset_len(self.tiles@);
        }
        while i < letters.len()
            invariant
                i <= letters.len(),
                self@ == old(self)@.add(letters_of(letters@.take(i as int))),
                self.tiles@.len() == old(self).tiles@.len() + i,
            decreases letters.len() - i,
        {
            proof {
                assert(letters@.take(i as int + 1) =~= letters@.take(i as int).push(letters@[i as int]));
                vstd::seq_lib::to_multiset_build(letters@.take(i as int), letters@[i as int]);
                vstd::seq_lib::to_multiset_build(self.tiles@, letters@[i as int]);
            }
            self.tiles.push(letters[i]);
            proof {
                assert(self@ =~= old(self)@.add(letters_of(letters@.take(i as int + 1))));
            }
            i += 1;
        }
        proof {
            assert(letters@.take(letters@.len() as int) =~= letters@);
            vstd::seq_lib::to_multiset_len(self.tiles@);
            vstd::seq_lib::to_multiset_len(old(self).tiles@);
        }
    }
}

} // verus!

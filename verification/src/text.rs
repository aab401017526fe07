//! Words as sequences of characters: conversion, common prefixes, ordering.

use vstd::prelude::*;

verus! {

/// Length of the longest common prefix of `a` and `b`.
pub open spec fn common_prefix_len(a: Seq<char>, b: Seq<char>) -> nat
    decreases a.len(),
{
    if a.len() == 0 || b.len() == 0 || a[0] != b[0] {
        0
    } else {
        1 + common_prefix_len(a.drop_first(), b.drop_first())
    }
}

/// That `a` and `b` agree on their first `k` letters and on no more.
pub open spec fn is_common_prefix_len(a: Seq<char>, b: Seq<char>, k: int) -> bool {
    &&& 0 <= k <= a.len()
    &&& k <= b.len()
    &&& forall|j: int| 0 <= j < k ==> a[j] == b[j]
    &&& k < a.len() && k < b.len() ==> a[k] != b[k]
}

/// The common prefix length is the one number that meets `is_common_prefix_len`.
pub proof fn lemma_common_prefix_len(a: Seq<char>, b: Seq<char>)
    ensures
        is_common_prefix_len(a, b, common_prefix_len(a, b) as int),
        forall|k: int| is_common_prefix_len(a, b, k) ==> k == common_prefix_len(a, b),
    decreases a.len(),
{
    if a.len() == 0 || b.len() == 0 || a[0] != b[0] {
        assert forall|k: int| is_common_prefix_len(a, b, k) implies k == 0 by {
            if k > 0 {
                assert(a[0] == b[0]);
            }
        }
    } else {
        let a1 = a.drop_first();
        let b1 = b.drop_first();
        lemma_common_prefix_len(a1, b1);
        let k1 = common_prefix_len(a1, b1) as int;
        assert forall|j: int| 0 <= j < k1 + 1 implies a[j] == b[j] by {
            if j > 0 {
                assert(a1[j - 1] == b1[j - 1]);
            }
        }
        assert forall|k: int| is_common_prefix_len(a, b, k) implies k == k1 + 1 by {
            if k == 0 {
                assert(a[0] != b[0]);
            } else {
                assert forall|j: int| 0 <= j < k - 1 implies a1[j] == b1[j] by {
                    assert(a[j + 1] == b[j + 1]);
                }
                assert(is_common_prefix_len(a1, b1, k - 1));
            }
        }
    }
}

/// The order of words: the first letter in which two words differ decides,
/// and a word precedes each of its proper extensions.
pub open spec fn lex_lt(a: Seq<char>, b: Seq<char>) -> bool {
    let k = common_prefix_len(a, b) as int;
    if k == a.len() {
        k < b.len()
    } else {
        k < b.len() && a[k] < b[k]
    }
}

/// The order of words is transitive.
pub proof fn lemma_lex_lt_transitive(a: Seq<char>, b: Seq<char>, c: Seq<char>)
    requires
        lex_lt(a, b),
        lex_lt(b, c),
    ensures
        lex_lt(a, c),
{
    lemma_common_prefix_len(a, b);
    lemma_common_prefix_len(b, c);
    lemma_common_prefix_len(a, c);
    let k1 = common_prefix_len(a, b) as int;
    let k2 = common_prefix_len(b, c) as int;
    let k = if k1 < k2 { k1 } else { k2 };
    assert forall|j: int| 0 <= j < k implies a[j] == c[j] by {
        assert(a[j] == b[j]);
        assert(b[j] == c[j]);
    }
    if k1 < k2 {
        assert(b[k1] == c[k1]);
    } else if k2 < k1 {
        assert(a[k2] == b[k2]);
    }
    assert(is_common_prefix_len(a, c, k));
}

/// No word precedes itself.
pub proof fn lemma_lex_lt_irreflexive(a: Seq<char>)
    ensures
        !lex_lt(a, a),
{
    lemma_common_prefix_len(a, a);
    assert(is_common_prefix_len(a, a, a.len() as int));
}

/// Each word precedes every later one: the list is sorted and holds no word twice.
pub open spec fn strictly_ascending(words: Seq<Seq<char>>) -> bool {
    forall|i: int, j: int| 0 <= i < j < words.len() ==> lex_lt(#[trigger] words[i], #[trigger] words[j])
}

/// What each of `words` spells.
pub open spec fn spellings(words: Seq<String>) -> Seq<Seq<char>> {
    words.map_values(|w: String| w@)
}

/// The characters of `s`, in order.
pub fn to_chars(s: &str) -> (v: Vec<char>)
    ensures
        v@ == s@,
{
    let mut v: Vec<char> = Vec::new();
    for c in it: s.chars()
        invariant
            v@ == it.seq().take(it.index() as int),
            it.seq() == s@,
    {
        v.push(c);
    }
    v
}

/// `String::push` appends one character to the end of the string.
pub assume_specification[ String::push ](s: &mut String, ch: char)
    ensures
        final(s)@ == old(s)@.push(ch),
;

/// The string that `chars` spell.
pub fn from_chars(chars: &Vec<char>) -> (s: String)
    ensures
        s@ == chars@,
{
    let mut s = String::new();
    let mut i: usize = 0;
    while i < chars.len()
        invariant
            i <= chars.len(),
            s@ == chars@.take(i as int),
        decreases chars.len() - i,
    {
        s.push(chars[i]);
        proof {
            assert(chars@.take(i as int + 1) =~= chars@.take(i as int).push(chars@[i as int]));
        }
        i += 1;
    }
    assert(chars@.take(chars@.len() as int) =~= chars@);
    s
}

/// How many leading letters `a` and `b` share.
pub fn shared_prefix(a: &Vec<char>, b: &Vec<char>) -> (n: usize)
    ensures
        n == common_prefix_len(a@, b@),
        n <= a@.len(),
        n <= b@.len(),
{
    let mut n: usize = 0;
    while n < a.len() && n < b.len() && a[n] == b[n]
        invariant
            n <= a.len(),
            n <= b.len(),
            forall|j: int| 0 <= j < n ==> a@[j] == b@[j],
        decreases a.len() - n,
    {
        n += 1;
    }
    proof {
        lemma_common_prefix_len(a@, b@);
        assert(is_common_prefix_len(a@, b@, n as int));
    }
    n
}

/// Length of the longest prefix that `word` shares with `prev_word`.
pub fn length_common_prefix(prev_word: &str, word: &str) -> (pref_len: usize)
    ensures
        pref_len == common_prefix_len(prev_word@, word@),
{
    let a = to_chars(prev_word);
    let b = to_chars(word);
    shared_prefix(&a, &b)
}

/// Length of the longest prefix that `word` shares with `prev_word`, counted
/// in characters.
pub fn get_pref_len(prev_word: String, word: String) -> (pref_len: usize)
    ensures
        pref_len == common_prefix_len(prev_word@, word@),
{
    length_common_prefix(prev_word.as_str(), word.as_str())
}

/// Whether `a` comes before `b` in the order of words.
pub fn precedes(a: &Vec<char>, b: &Vec<char>) -> (less: bool)
    ensures
        less == lex_lt(a@, b@),
{
    let k = shared_prefix(a, b);
    if k == a.len() {
        k < b.len()
    } else {
        k < b.len() && a[k] < b[k]
    }
}

/// Whether `words` is sorted ascending and holds no word twice, which is what
/// the builder of a graph expects of its input.
pub fn is_sorted_dedup(words: &Vec<String>) -> (ok: bool)
    ensures
        ok == strictly_ascending(spellings(words@)),
{
    let ghost ws = spellings(words@);
    if words.len() < 2 {
        return true;
    }
    let mut prev = to_chars(words[0].as_str());
    let mut i: usize = 1;
    while i < words.len()
        invariant
            1 <= i <= words.len(),
            ws == spellings(words@),
            prev@ == ws[i - 1],
            forall|a: int, b: int| 0 <= a < b < i ==> lex_lt(#[trigger] ws[a], #[trigger] ws[b]),
        decreases words.len() - i,
    {
        let cur = to_chars(words[i].as_str());
        assert(cur@ == ws[i as int]);
        if !precedes(&prev, &cur) {
            assert(!lex_lt(ws[i - 1], ws[i as int]));
            return false;
        }
        proof {
            assert forall|a: int, b: int| 0 <= a < b < i + 1 implies lex_lt(
                #[trigger] ws[a],
                #[trigger] ws[b],
            ) by {
                if b == i && a < i - 1 {
                    lemma_lex_lt_transitive(ws[a], ws[i - 1], ws[i as int]);
                }
            }
        }
        prev = cur;
        i += 1;
    }
    true
}

} // verus!

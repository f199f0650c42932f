//! The candidate resolver: the dictionary words that are anagrams of a
//! scrambled word.

use vstd::prelude::*;
use crate::dictionary::{
    bucket_of, lemma_letter_weight, lemma_word_bytes, lemma_word_fingerprint_permutation, letter_sum,
    letter_weight, texts, word_fingerprint, Dictionary,
};
use crate::fingerprint::{associative_hash, lemma_total_remove};
use crate::text::{ascii_upper, chars_of, distinct, unique_chars};

verus! {

/// How often `c` occurs in `s`.
pub open spec fn occurrences(s: Seq<char>, c: char) -> nat {
    s.to_multiset().count(c)
}

/// Whether `word` begins with the forced letter, in either case. A word
/// without letters, and a search without forced letter, put up no bar.
pub open spec fn first_letter_fits(word: Seq<char>, forced: Option<char>) -> bool {
    match forced {
        None => true,
        Some(f) => word.len() == 0 || ascii_upper(word[0]) == f,
    }
}

/// The characters of `search` whose counts are compared: all of them, or
/// all but the first where a first letter is forced.
pub open spec fn compared_part(search: Seq<char>, forced: Option<char>) -> Seq<char> {
    if forced is Some && search.len() > 0 {
        search.skip(1)
    } else {
        search
    }
}

/// Whether every compared character occurs in `word` as often as in
/// `search`.
pub open spec fn same_counts(search: Seq<char>, forced: Option<char>, word: Seq<char>) -> bool {
    forall|c: char| #[trigger]
        compared_part(search, forced).contains(c) ==> occurrences(search, c) == occurrences(
            word,
            c,
        )
}

/// Whether the resolver lets `word` through for `search`.
pub open spec fn accepts(search: Seq<char>, forced: Option<char>, word: Seq<char>) -> bool {
    first_letter_fits(word, forced) && same_counts(search, forced, word)
}

/// The candidates for `search`: the words of its fingerprint's bucket that
/// the resolver lets through, in bucket order.
pub open spec fn resolve(dict: Dictionary, search: Seq<char>, forced: Option<char>) -> Seq<
    Seq<char>,
> {
    dict.bucket(word_fingerprint(search)).filter(|w: Seq<char>| accepts(search, forced, w))
}

/// `distinct` keeps exactly the characters that occur.
pub proof fn lemma_distinct_contains(s: Seq<char>, c: char)
    ensures
        distinct(s).contains(c) <==> s.contains(c),
    decreases s.len(),
{
    if s.len() > 0 {
        let init = s.drop_last();
        lemma_distinct_contains(init, c);
        lemma_distinct_contains(init, s.last());
        if s.contains(c) {
            let i = choose|i: int| 0 <= i < s.len() && s[i] == c;
            if i < s.len() - 1 {
                assert(init[i] == c);
            }
        }
        if init.contains(c) {
            let i = choose|i: int| 0 <= i < init.len() && init[i] == c;
            assert(s[i] == c);
        }
        let rest = distinct(init);
        if !rest.contains(s.last()) {
            if rest.push(s.last()).contains(c) {
                let i = choose|i: int| 0 <= i < rest.push(s.last()).len() && rest.push(s.last())[i] == c;
                if i < rest.len() {
                    assert(rest[i] == c);
                } else {
                    assert(s[s.len() - 1] == c);
                }
            }
            if rest.contains(c) {
                let i = choose|i: int| 0 <= i < rest.len() && rest[i] == c;
                assert(rest.push(s.last())[i] == c);
            }
            if c == s.last() {
                assert(rest.push(s.last())[rest.len() as int] == c);
            }
        }
    }
}

/// Counts the occurrences of `c` in `v`.
pub fn count_char(v: &Vec<char>, c: char) -> (n: usize)
    ensures
        n == occurrences(v@, c),
{
    broadcast use vstd::multiset::group_multiset_axioms;
    broadcast use vstd::seq_lib::to_multiset_contains;

    let mut n: usize = 0;
    let mut i: usize = 0;
    while i < v.len()
        invariant
            i <= v.len(),
            n <= i,
            n == occurrences(v@.take(i as int), c),
        decreases v.len() - i,
    {
        proof {
            assert(v@.take(i + 1) =~= v@.take(i as int).push(v@[i as int]));
            vstd::seq_lib::to_multiset_build(v@.take(i as int), v@[i as int]);
        }
        if v[i] == c {
            n += 1;
        }
        i += 1;
    }
    proof {
        assert(v@.take(i as int) =~= v@);
    }
    n
}

/// The letters of `search` whose counts are compared, each once, in the
/// order of their first occurrence.
pub fn compared_letters(search: &Vec<char>, forced: Option<char>) -> (letters: Vec<char>)
    ensures
        letters@ == distinct(compared_part(search@, forced)),
{
    let mut part: Vec<char> = Vec::new();
    let from: usize = if forced.is_some() && search.len() > 0 { 1 } else { 0 };
    let mut i: usize = from;
    while i < search.len()
        invariant
            from <= i <= search.len(),
            part@ == search@.subrange(from as int, i as int),
        decreases search.len() - i,
    {
        part.push(search[i]);
        proof {
            assert(part@ =~= search@.subrange(from as int, i + 1));
        }
        i += 1;
    }
    proof {
        assert(part@ =~= compared_part(search@, forced));
    }
    unique_chars(&part)
}

/// Decides whether the resolver lets `word` through for `search`.
pub fn accepts_word(search: &Vec<char>, forced: Option<char>, word: &Vec<char>) -> (ok: bool)
    ensures
        ok == accepts(search@, forced, word@),
{
    if let Some(f) = forced {
        if word.len() > 0 && word[0].to_ascii_uppercase() != f {
            return false;
        }
    }
    let letters = compared_letters(search, forced);
    let ghost part = compared_part(search@, forced);
    let mut j: usize = 0;
    while j < letters.len()
        invariant
            j <= letters.len(),
            letters@ == distinct(part),
            part == compared_part(search@, forced),
            forall|m: int|
                0 <= m < j ==> occurrences(search@, #[trigger] letters@[m]) == occurrences(
                    word@,
                    letters@[m],
                ),
        decreases letters.len() - j,
    {
        let c = letters[j];
        if count_char(search, c) != count_char(word, c) {
            proof {
                assert(letters@[j as int] == c);
                assert(letters@.contains(c));
                lemma_distinct_contains(part, c);
                assert(compared_part(search@, forced).contains(c));
            }
            return false;
        }
        j += 1;
    }
    proof {
        assert forall|c: char| #[trigger]
            part.contains(c) implies occurrences(search@, c) == occurrences(word@, c) by {
            lemma_distinct_contains(part, c);
            let m = choose|m: int| 0 <= m < letters@.len() && letters@[m] == c;
            assert(letters@[m] == c);
        }
    }
    true
}

/// Returns the dictionary words that are anagrams of `search_word`: those
/// of its bucket that pass the first-letter test and the comparison of
/// character counts, in bucket order.
pub fn find_word_candidates(
    dict: &Dictionary,
    search_word: &str,
    first_char: Option<char>,
) -> (found: Vec<String>)
    ensures
        texts(found@) == resolve(*dict, search_word@, first_char),
{
    let search = chars_of(search_word);
    let entries = dict.lookup(associative_hash(search_word.as_bytes()));
    let ghost pred = |w: Seq<char>| accepts(search_word@, first_char, w);
    let mut found: Vec<String> = Vec::new();
    let mut i: usize = 0;
    proof {
        assert(texts(found@) =~= texts(entries@.take(0)).filter(pred));
    }
    while i < entries.len()
        invariant
            i <= entries.len(),
            search@ == search_word@,
            pred == |w: Seq<char>| accepts(search_word@, first_char, w),
            texts(found@) == texts(entries@.take(i as int)).filter(pred),
        decreases entries.len() - i,
    {
        let word = chars_of(entries[i].as_str());
        let ghost before = found@;
        let ok = accepts_word(&search, first_char, &word);
        if ok {
            found.push(entries[i].clone());
        }
        proof {
            let done = texts(entries@.take(i as int));
            assert(texts(entries@.take(i + 1)) =~= done.push(word@));
            done.lemma_filter_push(word@, pred);
            if ok {
                assert(texts(found@) =~= texts(before).push(word@));
            }
        }
        i += 1;
    }
    proof {
        assert(entries@.take(i as int) =~= entries@);
    }
    found
}

/// Whether every character of `word` adds to a fingerprint.
pub open spec fn all_letters_weigh(word: Seq<char>) -> bool {
    forall|i: int| 0 <= i < word.len() ==> letter_weight()(#[trigger] word[i]) > 0
}

/// The characters that have a weight are all but NUL.
pub proof fn lemma_all_letters_weigh(word: Seq<char>)
    ensures
        all_letters_weigh(word) <==> !word.contains('\0'),
{
    assert forall|i: int| 0 <= i < word.len() implies (letter_weight()(#[trigger] word[i]) > 0
        <==> word[i] != '\0') by {
        lemma_letter_weight(word[i]);
    }
    if word.contains('\0') {
        let i = choose|i: int| 0 <= i < word.len() && word[i] == '\0';
        assert(!(letter_weight()(word[i]) > 0));
    }
}

/// A word whose characters each occur as often as in `search`, wherever
/// `search` has them, and that weighs what `search` weighs, has the very
/// characters of `search`, each as often.
proof fn lemma_counts_and_weight(search: Seq<char>, word: Seq<char>)
    requires
        same_counts(search, None, word),
        letter_sum(word) == letter_sum(search),
        all_letters_weigh(word),
    ensures
        word.to_multiset() == search.to_multiset(),
    decreases search.len(),
{
    broadcast use vstd::multiset::group_multiset_axioms;

    search.to_multiset_ensures();
    word.to_multiset_ensures();
    if search.len() == 0 {
        if word.len() > 0 {
            assert(letter_weight()(word[word.len() - 1]) > 0);
        }
        assert(word =~= search);
    } else {
        let c = search.last();
        assert(search[search.len() - 1] == c);
        assert(compared_part(search, None).contains(c));
        assert(word.to_multiset().count(c) > 0);
        assert(word.contains(c));
        let j = choose|j: int| 0 <= j < word.len() && word[j] == c;
        let s1 = search.drop_last();
        let w1 = word.remove(j);
        assert(search.remove(search.len() - 1) =~= s1);
        lemma_total_remove(search, letter_weight(), search.len() - 1);
        lemma_total_remove(word, letter_weight(), j);
        s1.to_multiset_ensures();
        assert forall|x: char| #[trigger]
            compared_part(s1, None).contains(x) implies occurrences(s1, x) == occurrences(
            w1,
            x,
        ) by {
            let i = choose|i: int| 0 <= i < s1.len() && s1[i] == x;
            assert(search[i] == x);
            assert(compared_part(search, None).contains(x));
        }
        assert forall|i: int| 0 <= i < w1.len() implies letter_weight()(#[trigger] w1[i])
            > 0 by {
            if i < j {
                assert(w1[i] == word[i]);
            } else {
                assert(w1[i] == word[i + 1]);
            }
        }
        lemma_counts_and_weight(s1, w1);
        assert(word.to_multiset() =~= w1.to_multiset().insert(c));
        assert(search.to_multiset() =~= s1.to_multiset().insert(c));
    }
}

/// Among the words that share the fingerprint of `search`, the resolver
/// lets through exactly its anagrams: the words with the same characters,
/// each as often. This holds where neither sum of weights has wrapped
/// round and every character of the word has a weight.
pub proof fn lemma_exact_filtering(search: Seq<char>, word: Seq<char>)
    requires
        word_fingerprint(word) == word_fingerprint(search),
        letter_sum(word) < 0x1_0000_0000_0000_0000,
        letter_sum(search) < 0x1_0000_0000_0000_0000,
        all_letters_weigh(word),
    ensures
        accepts(search, None, word) <==> word.to_multiset() == search.to_multiset(),
{
    lemma_word_bytes(word);
    lemma_word_bytes(search);
    if accepts(search, None, word) {
        lemma_counts_and_weight(search, word);
    }
}

/// An anagram of `search` shares its fingerprint and is let through,
/// whatever its length and its characters; with a forced first letter it
/// is let through where its own first letter fits.
pub proof fn lemma_anagram_is_accepted(search: Seq<char>, forced: Option<char>, word: Seq<char>)
    requires
        word.to_multiset() == search.to_multiset(),
    ensures
        word_fingerprint(word) == word_fingerprint(search),
        accepts(search, forced, word) <==> first_letter_fits(word, forced),
{
    lemma_word_fingerprint_permutation(word, search);
}

/// With a forced first letter whose place in `search` holds a character
/// that `search` has again further on, every character is compared: the
/// resolver then lets through exactly the anagrams whose first letter
/// fits.
pub proof fn lemma_exact_filtering_forced(search: Seq<char>, forced: char, word: Seq<char>)
    requires
        word_fingerprint(word) == word_fingerprint(search),
        letter_sum(word) < 0x1_0000_0000_0000_0000,
        letter_sum(search) < 0x1_0000_0000_0000_0000,
        all_letters_weigh(word),
        search.len() > 0,
        search.skip(1).contains(search[0]),
    ensures
        accepts(search, Some(forced), word) <==> first_letter_fits(word, Some(forced))
            && word.to_multiset() == search.to_multiset(),
{
    if same_counts(search, Some(forced), word) {
        assert forall|c: char| #[trigger]
            compared_part(search, None).contains(c) implies occurrences(search, c)
            == occurrences(word, c) by {
            let i = choose|i: int| 0 <= i < search.len() && search[i] == c;
            if i > 0 {
                assert(search.skip(1)[i - 1] == c);
            }
            assert(compared_part(search, Some(forced)).contains(c));
        }
        assert(accepts(search, None, word));
    }
    lemma_exact_filtering(search, word);
}

/// Filtering twice keeps what passes both tests.
pub proof fn lemma_filter_twice<A>(s: Seq<A>, p: spec_fn(A) -> bool, q: spec_fn(A) -> bool)
    ensures
        s.filter(p).filter(q) == s.filter(|x: A| p(x) && q(x)),
    decreases s.len(),
{
    let both = |x: A| p(x) && q(x);
    if s.len() == 0 {
        assert(s.filter(p) =~= s);
        assert(s.filter(q) =~= s);
        assert(s.filter(both) =~= s);
    } else {
        let init = s.drop_last();
        let x = s.last();
        lemma_filter_twice(init, p, q);
        assert(init.push(x) =~= s);
        init.lemma_filter_push(x, p);
        init.lemma_filter_push(x, both);
        init.filter(p).lemma_filter_push(x, q);
    }
}

/// The candidates from an index that was built of `words` are the words
/// that share the fingerprint of `search` and that the resolver lets
/// through, in dictionary order.
pub proof fn lemma_candidates_in_dictionary_order(
    dict: Dictionary,
    words: Seq<Seq<char>>,
    search: Seq<char>,
    forced: Option<char>,
)
    requires
        forall|k: u64| #[trigger] dict.bucket(k) == bucket_of(words, k),
    ensures
        resolve(dict, search, forced) == words.filter(
            |w: Seq<char>|
                word_fingerprint(w) == word_fingerprint(search) && accepts(search, forced, w),
        ),
{
    let k = word_fingerprint(search);
    let p = |w: Seq<char>| word_fingerprint(w) == k;
    let q = |w: Seq<char>| accepts(search, forced, w);
    lemma_filter_twice(words, p, q);
    assert((|w: Seq<char>| p(w) && q(w)) =~= (|w: Seq<char>|
        word_fingerprint(w) == word_fingerprint(search) && accepts(search, forced, w)));
}

} // verus!

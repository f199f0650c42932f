//! The dictionary index: the words of a dictionary, grouped by fingerprint.

use vstd::prelude::*;
use vstd::utf8::{encode_scalar, encode_utf8, has_width_1_encoding};
use std::collections::HashMap;
use crate::fingerprint::{
    associative_hash, byte_sum, byte_weight, fingerprint, lemma_total_concat,
    lemma_total_permutation, lemma_total_remove, total,
};

verus! {

/// The fingerprint of a word: that of its UTF-8 bytes.
pub open spec fn word_fingerprint(w: Seq<char>) -> u64 {
    fingerprint(encode_utf8(w))
}

/// The texts of a sequence of strings.
pub open spec fn texts(v: Seq<String>) -> Seq<Seq<char>> {
    v.map_values(|s: String| s@)
}

/// The words among `words` whose fingerprint is `k`, in their order.
pub open spec fn bucket_of(words: Seq<Seq<char>>, k: u64) -> Seq<Seq<char>> {
    words.filter(|w: Seq<char>| word_fingerprint(w) == k)
}

/// The words that the map `m` files under fingerprint `k`.
pub open spec fn filed(m: Map<u64, Vec<String>>, k: u64) -> Seq<Seq<char>> {
    if m.contains_key(k) {
        texts(m[k]@)
    } else {
        Seq::empty()
    }
}

/// Files `word` at the end of the bucket of its fingerprint, and opens that
/// bucket where it is the first word to have it.
pub fn file_word(map: &mut HashMap<u64, Vec<String>>, word: &str)
    ensures
        filed(final(map)@, word_fingerprint(word@)) == filed(
            old(map)@,
            word_fingerprint(word@),
        ).push(word@),
        forall|k: u64|
            k != word_fingerprint(word@) ==> #[trigger] filed(final(map)@, k) == filed(
                old(map)@,
                k,
            ),
{
    broadcast use vstd::std_specs::hash::group_hash_axioms;

    let k = associative_hash(word.as_bytes());
    let mut entries = match map.remove(&k) {
        Some(found) => found,
        None => Vec::new(),
    };
    let ghost before = entries@;
    entries.push(word.to_owned());
    proof {
        assert(texts(entries@) =~= texts(before).push(word@));
        assert(texts(before) =~= filed(old(map)@, k));
    }
    map.insert(k, entries);
}

/// An index from fingerprint to the words that have it.
pub struct Dictionary {
    map: HashMap<u64, Vec<String>>,
    none: Vec<String>,
}

impl Dictionary {
    /// The spare bucket, handed out where a fingerprint has no words,
    /// stays empty.
    #[verifier::type_invariant]
    spec fn spare_is_empty(&self) -> bool {
        self.none@.len() == 0
    }

    /// The words filed under fingerprint `k`, in the order of their arrival.
    pub closed spec fn bucket(&self, k: u64) -> Seq<Seq<char>> {
        filed(self.map@, k)
    }

    /// An index without words.
    pub fn new() -> (d: Self)
        ensures
            forall|k: u64| #[trigger] d.bucket(k) == Seq::<Seq<char>>::empty(),
    {
        Dictionary { map: HashMap::new(), none: Vec::new() }
    }

    /// Builds the index of `words`: each bucket holds the words of its
    /// fingerprint in dictionary order.
    pub fn build(words: &Vec<String>) -> (d: Self)
        ensures
            forall|k: u64| #[trigger] d.bucket(k) == bucket_of(texts(words@), k),
    {
        let mut map: HashMap<u64, Vec<String>> = HashMap::new();
        let mut i: usize = 0;
        proof {
            assert forall|k: u64| #[trigger]
                filed(map@, k) == bucket_of(texts(words@.take(0)), k) by {
                assert(texts(words@.take(0)) =~= Seq::<Seq<char>>::empty());
                assert(bucket_of(Seq::<Seq<char>>::empty(), k) =~= Seq::<Seq<char>>::empty());
            }
        }
        while i < words.len()
            invariant
                i <= words.len(),
                forall|k: u64| #[trigger] filed(map@, k) == bucket_of(texts(words@.take(i as int)), k),
            decreases words.len() - i,
        {
            let ghost prev = map@;
            file_word(&mut map, words[i].as_str());
            proof {
                let done = texts(words@.take(i as int));
                let w = words@[i as int]@;
                assert(texts(words@.take(i + 1)) =~= done.push(w));
                assert forall|k: u64| #[trigger]
                    filed(map@, k) == bucket_of(texts(words@.take(i + 1)), k) by {
                    done.lemma_filter_push(w, |x: Seq<char>| word_fingerprint(x) == k);
                    assert(filed(prev, k) == bucket_of(done, k));
                }
            }
            i += 1;
        }
        proof {
            assert(words@.take(i as int) =~= words@);
        }
        Dictionary { map, none: Vec::new() }
    }

    /// The bucket of fingerprint `k`; an empty one where no word has it.
    pub fn lookup(&self, k: u64) -> (r: &Vec<String>)
        ensures
            texts(r@) == self.bucket(k),
    {
        broadcast use vstd::std_specs::hash::group_hash_axioms;

        match self.map.get(&k) {
            Some(found) => found,
            None => {
                proof {
                    use_type_invariant(self);
                    assert(texts(self.none@) =~= Seq::<Seq<char>>::empty());
                }
                &self.none
            },
        }
    }
}

/// The weight of a character in a fingerprint: the sum of the bytes that
/// encode it.
pub open spec fn letter_weight() -> spec_fn(char) -> nat {
    |c: char| byte_sum(encode_scalar(c as u32))
}

/// The sum of the weights of the characters of `w`, without any bound.
pub open spec fn letter_sum(w: Seq<char>) -> nat {
    total(w, letter_weight())
}

/// The bytes of a word add up to the weights of its characters.
pub proof fn lemma_word_bytes(w: Seq<char>)
    ensures
        byte_sum(encode_utf8(w)) == letter_sum(w),
    decreases w.len(),
{
    if w.len() > 0 {
        let head = seq![w[0]];
        let tail = w.drop_first();
        lemma_word_bytes(tail);
        lemma_total_concat(encode_scalar(w[0] as u32), encode_utf8(tail), byte_weight());
        lemma_total_concat(head, tail, letter_weight());
        assert(head + tail =~= w);
        assert(head.drop_last() =~= Seq::<char>::empty());
        assert(total(head.drop_last(), letter_weight()) == 0);
        assert(head.last() == w[0]);
        assert(total(head, letter_weight()) == letter_weight()(w[0]));
    }
}

/// The fingerprint of a word does not depend on the order of its
/// characters: any rearrangement of `w` has the fingerprint of `w`.
pub proof fn lemma_word_fingerprint_permutation(w: Seq<char>, p: Seq<char>)
    requires
        w.to_multiset() == p.to_multiset(),
    ensures
        word_fingerprint(w) == word_fingerprint(p),
{
    lemma_word_bytes(w);
    lemma_word_bytes(p);
    lemma_total_permutation(w, p, letter_weight());
}

/// Every character but NUL has a weight.
pub proof fn lemma_letter_weight(c: char)
    ensures
        letter_weight()(c) > 0 <==> c != '\0',
{
    let u = c as u32;
    let bytes = encode_scalar(u);
    lemma_total_remove(bytes, byte_weight(), 0);
    if has_width_1_encoding(u) {
        assert(bytes.remove(0) =~= Seq::<u8>::empty());
        assert((u & 0x7F) as u8 == 0 <==> u == 0) by (bit_vector)
            requires
                u <= 0x7F,
        ;
    } else {
        let a = ((u >> 6) & 0x1F) as u8;
        let b = ((u >> 12) & 0x0F) as u8;
        let d = ((u >> 18) & 0x7) as u8;
        assert(0xC0u8 | a > 0) by (bit_vector);
        assert(0xE0u8 | b > 0) by (bit_vector);
        assert(0xF0u8 | d > 0) by (bit_vector);
        assert(bytes[0] > 0);
        assert(u != 0);
    }
}

} // verus!

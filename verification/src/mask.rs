//! Letter masks: one bit for each of the 26 letters that a word holds. Two
//! words have a letter in common exactly when their masks share a bit.

use vstd::prelude::*;
use vstd::std_specs::iter::IteratorSpec;

verus! {

/// One of the 26 lowercase letters.
pub open spec fn is_letter(c: char) -> bool {
    'a' <= c <= 'z'
}

/// The letter that has slot `i`, counting from `a` at slot 0.
pub open spec fn letter_at(i: int) -> char {
    (('a' as u8 + i) as u8) as char
}

/// The mask of one character: its bit for a letter, nothing for any other
/// character.
pub open spec fn letter_bit(c: char) -> u32 {
    if is_letter(c) {
        1u32 << ((c as u32 - 'a' as u32) as u32)
    } else {
        0u32
    }
}

/// The mask of a word: the bits of all its letters.
pub open spec fn mask_of(word: Seq<char>) -> u32
    decreases word.len(),
{
    if word.len() == 0 {
        0u32
    } else {
        mask_of(word.drop_last()) | letter_bit(word.last())
    }
}

/// The mask has the bit of slot `i`.
pub open spec fn has_slot(mask: u32, i: int) -> bool {
    mask & (1u32 << (i as u32)) != 0
}

/// A mask holds the bit of a slot exactly when the word holds the letter of
/// that slot; it holds no bit beyond the 26 slots.
pub proof fn lemma_mask_slots(word: Seq<char>, i: int)
    requires
        0 <= i < 32,
    ensures
        has_slot(mask_of(word), i) <==> i < 26 && word.contains(letter_at(i)),
    decreases word.len(),
{
    let bit = 1u32 << (i as u32);
    if word.len() == 0 {
        assert(0u32 & bit == 0) by (bit_vector);
    } else {
        let rest = word.drop_last();
        let c = word.last();
        let m = mask_of(rest);
        let b = letter_bit(c);
        lemma_mask_slots(rest, i);
        assert((m | b) & bit != 0 <==> m & bit != 0 || b & bit != 0) by (bit_vector);
        if is_letter(c) {
            let k = (c as u32 - 'a' as u32) as u32;
            let j = i as u32;
            assert(((1u32 << k) & (1u32 << j) != 0) <==> k == j) by (bit_vector)
                requires
                    k < 32,
                    j < 32,
            ;
            assert(k == j ==> letter_at(i) == c);
        } else {
            assert(0u32 & bit == 0) by (bit_vector);
        }
        if word.contains(letter_at(i)) {
            let p = choose|p: int| 0 <= p < word.len() && word[p] == letter_at(i);
            if p < rest.len() {
                assert(rest[p] == letter_at(i));
            }
        }
        if rest.contains(letter_at(i)) {
            let p = choose|p: int| 0 <= p < rest.len() && rest[p] == letter_at(i);
            assert(word[p] == letter_at(i));
        }
        if b & bit != 0 {
            assert(word[word.len() - 1] == letter_at(i));
        }
    }
}

/// The mask of a word is disjoint from `m` exactly when the bit of each of
/// its letters is.
proof fn lemma_mask_disjoint(word: Seq<char>, m: u32)
    ensures
        mask_of(word) & m == 0 <==> forall|k: int|
            0 <= k < word.len() ==> letter_bit(#[trigger] word[k]) & m == 0,
    decreases word.len(),
{
    if word.len() == 0 {
        assert(0u32 & m == 0) by (bit_vector);
    } else {
        let rest = word.drop_last();
        let u = mask_of(rest);
        let b = letter_bit(word.last());
        lemma_mask_disjoint(rest, m);
        assert((u | b) & m == 0 <==> u & m == 0 && b & m == 0) by (bit_vector);
        if mask_of(word) & m == 0 {
            assert forall|k: int| 0 <= k < word.len() implies letter_bit(#[trigger] word[k]) & m
                == 0 by {
                if k < rest.len() {
                    assert(rest[k] == word[k]);
                }
            }
        } else if b & m == 0 {
            let k = choose|k: int| 0 <= k < rest.len() && letter_bit(#[trigger] rest[k]) & m != 0;
            assert(rest[k] == word[k]);
        } else {
            assert(word[word.len() - 1] == word.last());
        }
    }
}

/// The bit of a letter is in the mask of a word exactly when the letter is in
/// the word.
proof fn lemma_letter_in_mask(c: char, word: Seq<char>)
    requires
        is_letter(c),
    ensures
        letter_bit(c) & mask_of(word) != 0 <==> word.contains(c),
{
    let i = c as int - 'a' as int;
    let m = mask_of(word);
    let bit = 1u32 << (i as u32);
    lemma_mask_slots(word, i);
    assert(letter_at(i) == c);
    assert(bit & m == m & bit) by (bit_vector);
}

/// The masks of two words are disjoint exactly when the words have no letter
/// in common.
pub proof fn lemma_disjoint_words(a: Seq<char>, b: Seq<char>)
    ensures
        mask_of(a) & mask_of(b) == 0 <==> forall|c: char|
            is_letter(c) ==> !(a.contains(c) && #[trigger] b.contains(c)),
{
    let mb = mask_of(b);
    lemma_mask_disjoint(a, mb);
    if mask_of(a) & mb == 0 {
        assert forall|c: char| is_letter(c) implies !(a.contains(c) && #[trigger] b.contains(c)) by {
            if a.contains(c) {
                let k = choose|k: int| 0 <= k < a.len() && a[k] == c;
                assert(letter_bit(a[k]) & mb == 0);
                lemma_letter_in_mask(c, b);
            }
        }
    } else {
        let k = choose|k: int| 0 <= k < a.len() && letter_bit(#[trigger] a[k]) & mb != 0;
        let c = a[k];
        if is_letter(c) {
            lemma_letter_in_mask(c, b);
            assert(a.contains(c) && b.contains(c));
        } else {
            assert(0u32 & mb == 0) by (bit_vector);
        }
    }
}

/// The mask of `word`: bit `i` is set exactly when the word holds the letter
/// of slot `i`.
pub fn cook_word(word: &str) -> (mask: u32)
    ensures
        mask == mask_of(word@),
        forall|i: int| 0 <= i < 32 ==> (#[trigger] has_slot(mask, i) <==> i < 26 && word@.contains(letter_at(i))),
{
    let mut word_rep: u32 = 0;
    for c in it: word.chars()
        invariant
            it.seq() == word@,
            word_rep == mask_of(word@.take(it.index())),
    {
        proof {
            assert(word@.take(it.index() + 1).drop_last() =~= word@.take(it.index()));
        }
        if 'a' <= c && c <= 'z' {
            word_rep |= 1u32 << (c as u32 - 'a' as u32);
        } else {
            assert(word_rep | 0u32 == word_rep) by (bit_vector);
        }
    }
    proof {
        assert(word@.take(word@.len() as int) =~= word@);
        assert forall|i: int| 0 <= i < 32 implies (#[trigger] has_slot(word_rep, i) <==> i < 26
            && word@.contains(letter_at(i))) by {
            lemma_mask_slots(word@, i);
        }
    }
    word_rep
}

} // verus!

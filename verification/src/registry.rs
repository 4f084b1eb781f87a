//! The candidate registry: the admissible words of a word list, one for each
//! distinct letter mask, and the masks in ascending order.

use vstd::prelude::*;
use vstd::std_specs::iter::IteratorSpec;
use crate::mask::mask_of;
use crate::word::{admissible, encode_chars, normalized};

verus! {

/// The lines of a text: the stretches between its line feeds. A text without
/// a line feed is one line, and a text that ends in a line feed ends in an
/// empty line.
pub open spec fn lines_of(text: Seq<char>) -> Seq<Seq<char>>
    decreases text.len(),
{
    if text.len() == 0 {
        seq![Seq::<char>::empty()]
    } else {
        let before = lines_of(text.drop_last());
        if text.last() == '\n' {
            before.push(Seq::<char>::empty())
        } else {
            before.drop_last().push(before.last().push(text.last()))
        }
    }
}

/// The characters of each string.
pub open spec fn strings(words: Seq<String>) -> Seq<Seq<char>> {
    words.map_values(|w: String| w@)
}

/// The mask of each word.
pub open spec fn masks_of(words: Seq<Seq<char>>) -> Seq<u32> {
    words.map_values(|w: Seq<char>| mask_of(w))
}

/// The words kept so far, and after them the word of `line` if it is
/// admissible and none of the words kept so far has its mask.
pub open spec fn keep(words: Seq<Seq<char>>, line: Seq<char>, len: nat) -> Seq<Seq<char>> {
    let word = normalized(line);
    if admissible(word, len) && !masks_of(words).contains(mask_of(word)) {
        words.push(word)
    } else {
        words
    }
}

/// The words that a registry keeps of the given lines: in the order of the
/// lines, each admissible word that is the first with its mask.
pub open spec fn kept_words(lines: Seq<Seq<char>>, len: nat) -> Seq<Seq<char>>
    decreases lines.len(),
{
    if lines.len() == 0 {
        Seq::<Seq<char>>::empty()
    } else {
        keep(kept_words(lines.drop_last(), len), lines.last(), len)
    }
}

/// Each mask is below the next.
pub open spec fn ascending(masks: Seq<u32>) -> bool {
    forall|i: int, j: int| 0 <= i < j < masks.len() ==> masks[i] < masks[j]
}

/// `masks` holds, in ascending order, the masks of `words`, each once, and
/// the words have distinct masks.
pub open spec fn in_step(words: Seq<Seq<char>>, masks: Seq<u32>) -> bool {
    &&& ascending(masks)
    &&& masks.len() == words.len()
    &&& forall|m: u32| masks.contains(m) <==> masks_of(words).contains(m)
}

/// Every word that a registry keeps is admissible.
pub proof fn lemma_kept_words_admissible(lines: Seq<Seq<char>>, len: nat)
    ensures
        forall|k: int|
            0 <= k < kept_words(lines, len).len() ==> admissible(#[trigger] kept_words(lines, len)[k], len),
    decreases lines.len(),
{
    if lines.len() > 0 {
        let before = kept_words(lines.drop_last(), len);
        let now = kept_words(lines, len);
        lemma_kept_words_admissible(lines.drop_last(), len);
        assert forall|k: int| 0 <= k < now.len() implies admissible(#[trigger] now[k], len) by {
            if k < before.len() {
                assert(now[k] == before[k]);
            }
        }
    }
}

/// No two words that a registry keeps have the same mask.
pub proof fn lemma_kept_words_distinct(lines: Seq<Seq<char>>, len: nat)
    ensures
        masks_of(kept_words(lines, len)).no_duplicates(),
    decreases lines.len(),
{
    if lines.len() > 0 {
        let before = kept_words(lines.drop_last(), len);
        let now = kept_words(lines, len);
        lemma_kept_words_distinct(lines.drop_last(), len);
        if now != before {
            let word = normalized(lines.last());
            assert(masks_of(now) =~= masks_of(before).push(mask_of(word)));
        }
    }
}

/// Puts `m` at its place in the ascending `masks`, unless it is there
/// already; says whether it was new.
fn insert_mask(masks: &mut Vec<u32>, m: u32) -> (fresh: bool)
    requires
        ascending(old(masks)@),
    ensures
        ascending(final(masks)@),
        fresh == !old(masks)@.contains(m),
        forall|x: u32| final(masks)@.contains(x) <==> old(masks)@.contains(x) || x == m,
        final(masks)@.len() == old(masks)@.len() + (if fresh { 1int } else { 0int }),
{
    let len = masks.len();
    let mut lo: usize = 0;
    let mut hi: usize = len;
    while lo < hi
        invariant
            lo <= hi <= len == masks@.len(),
            masks@ == old(masks)@,
            ascending(masks@),
            forall|i: int| 0 <= i < lo ==> masks@[i] < m,
            forall|i: int| hi <= i < len ==> masks@[i] >= m,
        decreases hi - lo,
    {
        let mid = lo + (hi - lo) / 2;
        if masks[mid] < m {
            lo = mid + 1;
        } else {
            hi = mid;
        }
    }
    if lo < len && masks[lo] == m {
        false
    } else {
        let ghost before = masks@;
        masks.insert(lo, m);
        proof {
            let after = masks@;
            assert forall|i: int, j: int| 0 <= i < j < after.len() implies after[i] < after[j] by {
                if j < lo {
                    assert(after[i] == before[i] && after[j] == before[j]);
                } else if j == lo {
                    assert(after[i] == before[i]);
                } else if i < lo {
                    assert(after[i] == before[i] && after[j] == before[j - 1]);
                } else if i == lo {
                    assert(after[j] == before[j - 1]);
                } else {
                    assert(after[i] == before[i - 1] && after[j] == before[j - 1]);
                }
            }
            assert forall|x: u32| after.contains(x) <==> before.contains(x) || x == m by {
                if after.contains(x) {
                    let i = choose|i: int| 0 <= i < after.len() && after[i] == x;
                    if i < lo {
                        assert(before[i] == x);
                    } else if i > lo {
                        assert(before[i - 1] == x);
                    }
                }
                if before.contains(x) {
                    let i = choose|i: int| 0 <= i < before.len() && before[i] == x;
                    if i < lo {
                        assert(after[i] == x);
                    } else {
                        assert(after[i + 1] == x);
                    }
                }
                assert(after[lo as int] == m);
            }
            if before.contains(m) {
                let i = choose|i: int| 0 <= i < before.len() && before[i] == m;
                if i > lo {
                    assert(before[lo as int] < before[i]);
                }
            }
        }
        true
    }
}

/// Takes one line into the registry: its word is kept if it is admissible
/// and the first with its mask.
fn take_line(words: &mut Vec<String>, masks: &mut Vec<u32>, raw: &[char], word_len: usize)
    requires
        in_step(strings(old(words)@), old(masks)@),
    ensures
        strings(final(words)@) == keep(strings(old(words)@), raw@, word_len as nat),
        in_step(strings(final(words)@), final(masks)@),
{
    let ghost before = strings(words@);
    match encode_chars(raw, word_len) {
        Some((word, mask)) => {
            if insert_mask(masks, mask) {
                let ghost kept = word@;
                words.push(word);
                proof {
                    let now = strings(words@);
                    assert(now =~= before.push(kept));
                    assert(masks_of(now) =~= masks_of(before).push(mask));
                    assert forall|m: u32| masks@.contains(m) <==> masks_of(now).contains(m) by {
                        if masks_of(now).contains(m) {
                            let i = choose|i: int| 0 <= i < now.len() && masks_of(now)[i] == m;
                            if i < before.len() {
                                assert(masks_of(before)[i] == m);
                            }
                        }
                        if masks_of(before).contains(m) {
                            let i = choose|i: int| 0 <= i < before.len() && masks_of(before)[i] == m;
                            assert(masks_of(now)[i] == m);
                        }
                        assert(masks_of(now)[before.len() as int] == mask);
                    }
                }
            }
        },
        None => {},
    }
}

/// The registry of a word list: the text is taken line by line. Returns the
/// words that are kept, in the order of the text, and their masks in
/// ascending order.
pub fn parse_word_list(text: &str, word_len: usize) -> (r: (Vec<String>, Vec<u32>))
    ensures
        strings(r.0@) == kept_words(lines_of(text@), word_len as nat),
        forall|k: int| 0 <= k < r.0@.len() ==> admissible(#[trigger] r.0@[k]@, word_len as nat),
        masks_of(strings(r.0@)).no_duplicates(),
        ascending(r.1@),
        r.1@.len() == r.0@.len(),
        forall|m: u32| r.1@.contains(m) <==> masks_of(strings(r.0@)).contains(m),
{
    let mut res_words: Vec<String> = Vec::new();
    let mut res_mappings: Vec<u32> = Vec::new();
    let mut line: Vec<char> = Vec::new();
    let ghost mut done: Seq<Seq<char>> = Seq::empty();
    proof {
        assert(text@.take(0) =~= Seq::<char>::empty());
        assert(strings(res_words@) =~= kept_words(done, word_len as nat));
        assert(masks_of(strings(res_words@)) =~= Seq::<u32>::empty());
    }
    for c in it: text.chars()
        invariant
            it.seq() == text@,
            lines_of(text@.take(it.index())) == done.push(line@),
            strings(res_words@) == kept_words(done, word_len as nat),
            in_step(strings(res_words@), res_mappings@),
    {
        proof {
            let upto = text@.take(it.index() + 1);
            assert(upto.drop_last() =~= text@.take(it.index()));
            assert(upto.last() == c);
            assert(done.push(line@).drop_last() =~= done);
        }
        if c == '\n' {
            take_line(&mut res_words, &mut res_mappings, line.as_slice(), word_len);
            proof {
                done = done.push(line@);
            }
            line.clear();
        } else {
            line.push(c);
        }
    }
    take_line(&mut res_words, &mut res_mappings, line.as_slice(), word_len);
    proof {
        assert(text@.take(text@.len() as int) =~= text@);
        let lines = done.push(line@);
        assert(lines.drop_last() =~= done);
        lemma_kept_words_admissible(lines, word_len as nat);
        lemma_kept_words_distinct(lines, word_len as nat);
        assert forall|k: int| 0 <= k < res_words@.len() implies admissible(
            #[trigger] res_words@[k]@,
            word_len as nat,
        ) by {
            assert(strings(res_words@)[k] == res_words@[k]@);
        }
    }
    (res_words, res_mappings)
}

} // verus!

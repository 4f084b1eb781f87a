//! How a mask and its words are shown: one line of text for each mask.

use vstd::prelude::*;
use vstd::string::StringExecFns;
use crate::mask::{cook_word, has_slot, letter_at, mask_of};
use crate::word::push_char;
use crate::registry::strings;

verus! {

/// The 26 letter slots of a mask: the letter where the mask holds it, a dash
/// where it does not.
pub open spec fn pattern(mapping: u32) -> Seq<char> {
    Seq::new(
        26,
        |i: int|
            if has_slot(mapping, i) {
                letter_at(i)
            } else {
                '-'
            },
    )
}

/// The words with the given mask, in their order.
pub open spec fn words_with(words: Seq<Seq<char>>, mapping: u32) -> Seq<Seq<char>>
    decreases words.len(),
{
    if words.len() == 0 {
        Seq::<Seq<char>>::empty()
    } else if mask_of(words.last()) == mapping {
        words_with(words.drop_last(), mapping).push(words.last())
    } else {
        words_with(words.drop_last(), mapping)
    }
}

/// What stands between two words of one mask.
pub open spec fn separator() -> Seq<char> {
    seq![' ', '/', ' ']
}

/// The words one after the other, with the separator between each two.
pub open spec fn joined(words: Seq<Seq<char>>) -> Seq<char>
    decreases words.len(),
{
    if words.len() == 0 {
        Seq::<char>::empty()
    } else if words.len() == 1 {
        words.last()
    } else {
        joined(words.drop_last()) + separator() + words.last()
    }
}

/// The line that shows a mask: its pattern, a space, and between double
/// quotes the words that have the mask.
pub open spec fn rendered(words: Seq<Seq<char>>, mapping: u32) -> Seq<char> {
    pattern(mapping) + seq![' ', '"'] + joined(words_with(words, mapping)) + seq!['"']
}

/// The line that shows the mask `mapping` with the words of `word_list` that
/// have it.
pub fn display_words(word_list: &Vec<String>, mapping: u32) -> (line: String)
    ensures
        line@ == rendered(strings(word_list@), mapping),
{
    let mut line = String::new();
    let mut i: u8 = 0;
    while i < 26
        invariant
            i <= 26,
            line@ == pattern(mapping).take(i as int),
        decreases 26 - i,
    {
        let shown = if mapping & (1u32 << (i as u32)) == 0 {
            '-'
        } else {
            ('a' as u8 + i) as char
        };
        push_char(&mut line, shown);
        i += 1;
        proof {
            assert(pattern(mapping).take(i as int) =~= pattern(mapping).take(i - 1).push(shown));
        }
    }
    push_char(&mut line, ' ');
    push_char(&mut line, '"');
    let ghost head = pattern(mapping) + seq![' ', '"'];
    let ghost all = strings(word_list@);
    proof {
        assert(pattern(mapping).take(26) =~= pattern(mapping));
        assert(line@ =~= head);
        assert(all.take(0) =~= Seq::<Seq<char>>::empty());
    }
    let mut hits: usize = 0;
    let mut k: usize = 0;
    while k < word_list.len()
        invariant
            k <= word_list.len(),
            all == strings(word_list@),
            hits == words_with(all.take(k as int), mapping).len(),
            hits <= k,
            line@ == head + joined(words_with(all.take(k as int), mapping)),
        decreases word_list.len() - k,
    {
        let word = word_list[k].as_str();
        proof {
            let upto = all.take(k + 1);
            assert(upto.drop_last() =~= all.take(k as int));
            assert(upto.last() == word@);
        }
        if cook_word(word) == mapping {
            let ghost found = words_with(all.take(k as int), mapping);
            if hits > 0 {
                proof {
                    reveal_strlit(" / ");
                    assert(" / "@ =~= separator());
                }
                line.append(" / ");
            }
            line.append(word);
            hits += 1;
            proof {
                let now = found.push(word@);
                assert(now.drop_last() =~= found);
                assert(line@ =~= head + joined(now));
            }
        }
        k += 1;
    }
    proof {
        assert(all.take(word_list.len() as int) =~= all);
    }
    push_char(&mut line, '"');
    line
}

} // verus!

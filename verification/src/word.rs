//! Words: how a line of text is read as a word, and which words the search
//! accepts.

use vstd::prelude::*;
use vstd::std_specs::iter::IteratorSpec;
use std::collections::HashSet;
use crate::mask::{cook_word, is_letter, mask_of};

verus! {

/// One of the five vowels.
pub open spec fn is_vowel(c: char) -> bool {
    c == 'a' || c == 'e' || c == 'i' || c == 'o' || c == 'u'
}

/// A character with the Unicode property `White_Space`.
pub open spec fn whitespace(c: char) -> bool {
    let u = c as u32;
    ||| 0x09 <= u <= 0x0D
    ||| u == 0x20
    ||| u == 0x85
    ||| u == 0xA0
    ||| u == 0x1680
    ||| 0x2000 <= u <= 0x200A
    ||| u == 0x2028
    ||| u == 0x2029
    ||| u == 0x202F
    ||| u == 0x205F
    ||| u == 0x3000
}

/// The lowercase form of an ASCII capital; any other character is itself.
pub open spec fn lowered(c: char) -> char {
    if 'A' <= c <= 'Z' {
        ((c as u8 + 32) as u8) as char
    } else {
        c
    }
}

/// `s` without the whitespace at its start.
pub open spec fn trim_start(s: Seq<char>) -> Seq<char>
    decreases s.len(),
{
    if s.len() > 0 && whitespace(s.first()) {
        trim_start(s.drop_first())
    } else {
        s
    }
}

/// `s` without the whitespace at its end.
pub open spec fn trim_end(s: Seq<char>) -> Seq<char>
    decreases s.len(),
{
    if s.len() > 0 && whitespace(s.last()) {
        trim_end(s.drop_last())
    } else {
        s
    }
}

/// The word that a line of text stands for: the line without the whitespace
/// around it, in lowercase.
pub open spec fn normalized(line: Seq<char>) -> Seq<char> {
    trim_end(trim_start(line)).map_values(|c: char| lowered(c))
}

/// A word that the search accepts: `len` letters, no letter twice, at least
/// one vowel.
pub open spec fn admissible(word: Seq<char>, len: nat) -> bool {
    &&& word.len() == len
    &&& exists|k: int| 0 <= k < word.len() && is_vowel(#[trigger] word[k])
    &&& forall|k: int| 0 <= k < word.len() ==> is_letter(#[trigger] word[k])
    &&& word.no_duplicates()
}

/// Whether `c` is whitespace.
pub fn is_whitespace(c: char) -> (yes: bool)
    ensures
        yes == whitespace(c),
{
    let u = c as u32;
    (0x09 <= u && u <= 0x0D) || u == 0x20 || u == 0x85 || u == 0xA0 || u == 0x1680 || (0x2000 <= u
        && u <= 0x200A) || u == 0x2028 || u == 0x2029 || u == 0x202F || u == 0x205F || u == 0x3000
}

/// The lowercase form of `c`.
pub fn to_lower(c: char) -> (low: char)
    ensures
        low == lowered(c),
{
    if 'A' <= c && c <= 'Z' {
        (c as u8 + 32u8) as char
    } else {
        c
    }
}

/// Appends `c` to `s`. The call is `String::push`, which puts the character
/// at the end of the string and leaves what was there as it was.
#[verifier::external_body]
pub(crate) fn push_char(s: &mut String, c: char)
    ensures
        final(s)@ == old(s)@.push(c),
{
    s.push(c);
}

/// The word that the line `raw` stands for.
pub fn normalize(raw: &[char]) -> (word: String)
    ensures
        word@ == normalized(raw@),
{
    let n = raw.len();
    let mut from: usize = 0;
    proof {
        assert(raw@.subrange(0, n as int) =~= raw@);
    }
    while from < n && is_whitespace(raw[from])
        invariant
            from <= n == raw@.len(),
            trim_start(raw@) == trim_start(raw@.subrange(from as int, n as int)),
        decreases n - from,
    {
        proof {
            let rest = raw@.subrange(from as int, n as int);
            assert(rest.first() == raw@[from as int]);
            assert(rest.drop_first() =~= raw@.subrange(from + 1, n as int));
        }
        from += 1;
    }
    let mut to: usize = n;
    while to > from && is_whitespace(raw[to - 1])
        invariant
            from <= to <= n == raw@.len(),
            trim_end(raw@.subrange(from as int, n as int)) == trim_end(
                raw@.subrange(from as int, to as int),
            ),
        decreases to,
    {
        proof {
            let rest = raw@.subrange(from as int, to as int);
            assert(rest.last() == raw@[to - 1]);
            assert(rest.drop_last() =~= raw@.subrange(from as int, to - 1));
        }
        to -= 1;
    }
    proof {
        let head = raw@.subrange(from as int, n as int);
        if from < n {
            assert(head.first() == raw@[from as int]);
        }
        assert(trim_start(raw@) == head);
        let body = raw@.subrange(from as int, to as int);
        if to > from {
            assert(body.last() == raw@[to - 1]);
        }
        assert(trim_end(head) == body);
    }
    let mut word = String::new();
    let mut at: usize = from;
    while at < to
        invariant
            from <= at <= to <= n == raw@.len(),
            word@ == raw@.subrange(from as int, at as int).map_values(|c: char| lowered(c)),
        decreases to - at,
    {
        push_char(&mut word, to_lower(raw[at]));
        at += 1;
        proof {
            let f = |c: char| lowered(c);
            assert(raw@.subrange(from as int, at as int).map_values(f) =~= raw@.subrange(
                from as int,
                at - 1,
            ).map_values(f).push(lowered(raw@[at - 1])));
        }
    }
    word
}

/// Two characters with one code are one character.
proof fn lemma_code_injective(a: char, b: char)
    requires
        a as u32 == b as u32,
    ensures
        a == b,
{
}

/// Whether no character occurs twice in `word`.
pub fn has_unique_elements(word: &str) -> (unique: bool)
    ensures
        unique == word@.no_duplicates(),
{
    let mut uniq: HashSet<u32> = HashSet::new();
    for c in it: word.chars()
        invariant
            it.seq() == word@,
            word@.take(it.index()).no_duplicates(),
            forall|x: u32| uniq@.contains(x) <==> exists|k: int| 0 <= k < it.index() && #[trigger] word@[k] as u32 == x,
    {
        let ghost at = it.index();
        let fresh = uniq.insert(c as u32);
        if !fresh {
            proof {
                let k = choose|k: int| 0 <= k < at && #[trigger] word@[k] as u32 == c as u32;
                lemma_code_injective(word@[k], c);
                assert(word@[k] == word@[at]);
            }
            return false;
        }
        proof {
            let now = word@.take(at + 1);
            assert forall|i: int, j: int| 0 <= i < now.len() && 0 <= j < now.len() && i != j implies now[i]
                != now[j] by {
                let before = word@.take(at);
                if i < at && j < at {
                    assert(before[i] != before[j]);
                }
            }
        }
    }
    proof {
        assert(word@.take(word@.len() as int) =~= word@);
    }
    true
}

/// Whether `word` is admissible with `word_len` letters.
pub fn is_admissible(word: &str, word_len: usize) -> (ok: bool)
    ensures
        ok == admissible(word@, word_len as nat),
{
    if word.unicode_len() != word_len {
        return false;
    }
    let mut vowel = false;
    let mut letters = true;
    for c in it: word.chars()
        invariant
            it.seq() == word@,
            vowel == exists|k: int| 0 <= k < it.index() && is_vowel(#[trigger] word@[k]),
            letters == forall|k: int| 0 <= k < it.index() ==> is_letter(#[trigger] word@[k]),
    {
        if c == 'a' || c == 'e' || c == 'i' || c == 'o' || c == 'u' {
            vowel = true;
        }
        if !('a' <= c && c <= 'z') {
            letters = false;
        }
    }
    vowel && letters && has_unique_elements(word)
}

/// The characters of `text`, one by one.
fn chars_of(text: &str) -> (chars: Vec<char>)
    ensures
        chars@ == text@,
{
    let mut chars: Vec<char> = Vec::new();
    for c in it: text.chars()
        invariant
            it.seq() == text@,
            chars@ == text@.take(it.index()),
    {
        chars.push(c);
    }
    chars
}

/// The word and the mask of the line `raw`, where the line stands for an
/// admissible word of `word_len` letters.
pub fn encode_chars(raw: &[char], word_len: usize) -> (r: Option<(String, u32)>)
    ensures
        r is Some <==> admissible(normalized(raw@), word_len as nat),
        r matches Some((word, mask)) ==> word@ == normalized(raw@) && mask == mask_of(word@),
{
    let word = normalize(raw);
    if is_admissible(word.as_str(), word_len) {
        let mask = cook_word(word.as_str());
        Some((word, mask))
    } else {
        None
    }
}

/// The word and the mask of a line of text, where the line stands for an
/// admissible word of `word_len` letters; `None` for any other line.
pub fn encode_line(line: &str, word_len: usize) -> (r: Option<(String, u32)>)
    ensures
        r is Some <==> admissible(normalized(line@), word_len as nat),
        r matches Some((word, mask)) ==> word@ == normalized(line@) && mask == mask_of(word@),
{
    let raw = chars_of(line);
    encode_chars(raw.as_slice(), word_len)
}

} // verus!

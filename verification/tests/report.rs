use disjoint_words::mask::cook_word;
use disjoint_words::report::display_words;

fn list(words: &[&str]) -> Vec<String> {
    words.iter().map(|w| w.to_string()).collect()
}

#[test]
fn line_shows_pattern_and_word() {
    let words = list(&["fjord", "waltz"]);
    assert_eq!(
        display_words(&words, cook_word("fjord")),
        "---d-f---j----o--r-------- \"fjord\""
    );
    assert_eq!(
        display_words(&words, cook_word("waltz")),
        "a----------l-------t--w--z \"waltz\""
    );
}

#[test]
fn line_joins_words_of_one_mask() {
    let words = list(&["stale", "fjord", "least", "slate"]);
    assert_eq!(
        display_words(&words, cook_word("stale")),
        "a---e------l------st------ \"stale / least / slate\""
    );
    assert_eq!(
        display_words(&words[..3].to_vec(), cook_word("least")),
        "a---e------l------st------ \"stale / least\""
    );
}

#[test]
fn line_without_words_has_empty_quotes() {
    let words = list(&["fjord"]);
    assert_eq!(display_words(&words, 0), "-------------------------- \"\"");
    assert_eq!(display_words(&Vec::new(), 1), "a------------------------- \"\"");
    assert_eq!(
        display_words(&words, (1 << 26) - 1),
        "abcdefghijklmnopqrstuvwxyz \"\""
    );
}

#[test]
fn line_is_what_formatting_gives() {
    let words = list(&["gucks", "vibex", "nymph"]);
    for w in &words {
        let mask = cook_word(w);
        let mut expected = String::new();
        for i in 0..26u32 {
            if (1 << i) & mask == 0 {
                expected.push('-');
            } else {
                expected.push(char::from_u32('a' as u32 + i).unwrap());
            }
        }
        expected.push_str(&format!(" {:?}", w));
        assert_eq!(display_words(&words, mask), expected);
    }
}

#[test]
fn pattern_ignores_bits_beyond_the_letters() {
    let words = list(&["fjord"]);
    assert_eq!(display_words(&words, 1 << 26), "-------------------------- \"\"");
    assert_eq!(display_words(&words, u32::MAX), "abcdefghijklmnopqrstuvwxyz \"\"");
}

use disjoint_words::mask::cook_word;
use disjoint_words::registry::parse_word_list;
use disjoint_words::search::solve_function;

fn plain_reading(text: &str, word_len: usize) -> (Vec<String>, Vec<u32>) {
    let mut words: Vec<String> = Vec::new();
    let mut masks: Vec<u32> = Vec::new();
    for line in text.split('\n') {
        let word = line.trim().to_ascii_lowercase();
        if word.chars().count() == word_len
            && word.chars().any(|c| "aeiou".contains(c))
            && word.chars().all(|c| c.is_ascii_lowercase())
            && (0..word.len()).all(|i| !word[i + 1..].contains(&word[i..i + 1]))
        {
            let mask = cook_word(&word);
            if masks.contains(&mask) {
                continue;
            }
            words.push(word);
            masks.push(mask);
        }
    }
    masks.sort();
    (words, masks)
}

#[test]
fn registry_keeps_admissible_words() {
    let (words, masks) = parse_word_list("abcde\nfghij\nklmno\npqrst\nuvwxy\nvwxyz", 5);
    assert_eq!(words, vec!["abcde", "fghij", "klmno", "uvwxy"]);
    assert_eq!(
        masks,
        vec![cook_word("abcde"), cook_word("fghij"), cook_word("klmno"), cook_word("uvwxy")]
    );
}

#[test]
fn registry_masks_are_ascending() {
    let (words, masks) = parse_word_list("waltz\nfjord\nnymph\nquick\nvibex\ngucks\nabide", 5);
    assert_eq!(words, vec!["waltz", "fjord", "quick", "vibex", "gucks", "abide"]);
    let mut expected: Vec<u32> = words.iter().map(|w| cook_word(w)).collect();
    expected.sort();
    assert_eq!(masks, expected);
    for i in 1..masks.len() {
        assert!(masks[i - 1] < masks[i]);
    }
}

#[test]
fn registry_keeps_the_first_word_of_a_mask() {
    let (words, masks) = parse_word_list("stale\nleast\nslate\nfjord\nsteal\n", 5);
    assert_eq!(words, vec!["stale", "fjord"]);
    assert_eq!(masks.len(), 2);
    assert!(masks.contains(&cook_word("least")));
    assert!(masks.contains(&cook_word("fjord")));
}

#[test]
fn registry_drops_malformed_lines() {
    let text = "fjord\nfjords\nfjor\nhello\nnymph\nfj0rd\n\n   \nfj rd\nabc\u{e9}f\nwaltz";
    let (words, masks) = parse_word_list(text, 5);
    assert_eq!(words, vec!["fjord", "waltz"]);
    assert_eq!(masks.len(), 2);
}

#[test]
fn registry_takes_any_case_and_surrounding_whitespace() {
    let (words, masks) = parse_word_list("  FJORD\r\n\tWaltz \r\nquIck", 5);
    assert_eq!(words, vec!["fjord", "waltz", "quick"]);
    assert_eq!(masks.len(), 3);
}

#[test]
fn registry_of_nothing_is_empty() {
    assert_eq!(parse_word_list("", 5), (Vec::<String>::new(), Vec::<u32>::new()));
    assert_eq!(parse_word_list("\n\n\n", 5), (Vec::<String>::new(), Vec::<u32>::new()));
    assert_eq!(parse_word_list("fjord\nwaltz", 0), (Vec::<String>::new(), Vec::<u32>::new()));
    assert_eq!(parse_word_list("fjord\nwaltz", 4), (Vec::<String>::new(), Vec::<u32>::new()));
}

#[test]
fn registry_takes_the_last_line_without_line_feed() {
    assert_eq!(parse_word_list("fjord", 5).0, vec!["fjord"]);
    assert_eq!(parse_word_list("fjord\n", 5).0, vec!["fjord"]);
    assert_eq!(parse_word_list("\nfjord", 5).0, vec!["fjord"]);
}

#[test]
fn registry_takes_other_word_lengths() {
    let (words, masks) = parse_word_list("at\nto\nta\nox\nzz\nmy\nbe", 2);
    assert_eq!(words, vec!["at", "to", "ox", "be"]);
    let mut expected = vec![cook_word("at"), cook_word("to"), cook_word("ox"), cook_word("be")];
    expected.sort();
    assert_eq!(masks, expected);
}

#[test]
fn registry_agrees_with_the_plain_reading() {
    let text = "Fjord\nwaltz\n nymph\nquick \nvibex\ngucks\nGUCKS\nstale\nleast\nhello\nabcde\nedcba\n\
                toolong\nshrt\n12345\n\nzebra\nbraze\nCRAZY\nfable\n";
    for word_len in 0..8 {
        assert_eq!(parse_word_list(text, word_len), plain_reading(text, word_len));
    }
}

#[test]
fn registry_feeds_the_search() {
    let text = "fjord\ngucks\nnymph\nvibex\nwaltz\nquick\nfable";
    let (words, masks) = parse_word_list(text, 5);
    assert_eq!(words.len(), 6);
    let found = solve_function(&masks, 4);
    let mut groups: Vec<Vec<String>> = Vec::new();
    for c in &found {
        let mut group: Vec<String> = Vec::new();
        for i in c {
            for w in &words {
                if cook_word(w) == masks[*i] {
                    group.push(w.clone());
                }
            }
        }
        group.sort();
        groups.push(group);
    }
    assert_eq!(groups, vec![vec!["fjord", "gucks", "vibex", "waltz"]]);
}

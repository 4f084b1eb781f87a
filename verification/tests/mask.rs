use disjoint_words::mask::cook_word;

#[test]
fn mask_has_one_bit_per_letter() {
    assert_eq!(cook_word(""), 0);
    assert_eq!(cook_word("a"), 1);
    assert_eq!(cook_word("z"), 1 << 25);
    assert_eq!(cook_word("abcde"), 0b11111);
    assert_eq!(cook_word("fghij"), 0b11111 << 5);
    assert_eq!(cook_word("vwxyz"), 0b11111 << 21);
    assert_eq!(cook_word("fjord"), (1 << 5) | (1 << 9) | (1 << 14) | (1 << 17) | (1 << 3));
    assert_eq!(cook_word("abcdefghijklmnopqrstuvwxyz"), (1 << 26) - 1);
}

#[test]
fn mask_ignores_order_and_repeats() {
    assert_eq!(cook_word("stale"), cook_word("least"));
    assert_eq!(cook_word("stale"), cook_word("slate"));
    assert_eq!(cook_word("aab"), cook_word("ab"));
    assert_ne!(cook_word("stale"), cook_word("stall"));
}

#[test]
fn mask_has_bits_for_letters_only() {
    assert_eq!(cook_word("A"), 0);
    assert_eq!(cook_word("a-b c"), 0b111);
    assert_eq!(cook_word("{`~"), 0);
    assert_eq!(cook_word("\u{e9}t\u{e9}"), 1 << 19);
}

#[test]
fn disjoint_words_have_disjoint_masks() {
    assert_eq!(cook_word("fjord") & cook_word("gucks"), 0);
    assert_eq!(cook_word("fjord") & cook_word("nymph"), 0);
    assert_ne!(cook_word("fjord") & cook_word("vibex"), u32::MAX);
    assert_ne!(cook_word("uvwxy") & cook_word("vwxyz"), 0);
}

use disjoint_words::mask::cook_word;
use disjoint_words::search::{solve_function, Solver};

fn masks_of_words(words: &[&str]) -> Vec<u32> {
    let mut masks: Vec<u32> = words.iter().map(|w| cook_word(w)).collect();
    masks.sort();
    masks.dedup();
    masks
}

fn extend(masks: &[u32], n: usize, start: usize, used: u32, chosen: &mut Vec<usize>, out: &mut Vec<Vec<usize>>) {
    if chosen.len() == n {
        out.push(chosen.clone());
        return;
    }
    for i in start..masks.len() {
        if masks[i] & used == 0 {
            chosen.push(i);
            extend(masks, n, i + 1, used | masks[i], chosen, out);
            chosen.pop();
        }
    }
}

fn brute_force(masks: &[u32], n: usize) -> Vec<Vec<usize>> {
    let mut out = Vec::new();
    let mut chosen = Vec::new();
    extend(masks, n, 0, 0, &mut chosen, &mut out);
    out
}

fn drain(masks: &Vec<u32>, n: usize) -> Vec<Vec<usize>> {
    let mut solver = Solver::new(masks, n);
    let mut out = Vec::new();
    while let Some(c) = solver.next() {
        out.push(c);
    }
    assert_eq!(solver.next(), None);
    assert_eq!(solver.next(), None);
    out
}

fn scattered_masks(count: usize, seed: u64) -> Vec<u32> {
    let mut state = seed;
    let mut masks = Vec::new();
    while masks.len() < count {
        let mut mask = 0u32;
        for _ in 0..3 {
            state = state.wrapping_mul(6364136223846793005).wrapping_add(1442695040888963407);
            mask |= 1u32 << ((state >> 33) % 26);
        }
        masks.push(mask);
    }
    masks.sort();
    masks.dedup();
    masks
}

#[test]
fn five_disjoint_words_are_found_first() {
    let masks = masks_of_words(&["abcde", "fghij", "klmno", "pqrst", "uvwxy", "vwxyz"]);
    assert_eq!(masks.len(), 6);
    assert_eq!(masks[4], cook_word("uvwxy"));
    assert_eq!(masks[5], cook_word("vwxyz"));
    let found = solve_function(&masks, 5);
    // "uvwxy" and "vwxyz" share letters, so they never come together; each of
    // them is disjoint from the first four words.
    assert_eq!(found, vec![vec![0, 1, 2, 3, 4], vec![0, 1, 2, 3, 5]]);
    assert_eq!(found, brute_force(&masks, 5));
    for c in &found {
        assert!(!(c.contains(&4) && c.contains(&5)));
    }
    assert_eq!(drain(&masks, 5), found);
}

#[test]
fn five_disjoint_words_alone_give_one_combination() {
    let masks = masks_of_words(&["abcde", "fghij", "klmno", "pqrst", "uvwxy"]);
    assert_eq!(solve_function(&masks, 5), vec![vec![0, 1, 2, 3, 4]]);
    assert_eq!(drain(&masks, 5), vec![vec![0, 1, 2, 3, 4]]);
}

#[test]
fn six_of_five_entries_give_nothing() {
    let masks = masks_of_words(&["abcde", "fghij", "klmno", "pqrst", "uvwxy"]);
    assert_eq!(masks.len(), 5);
    assert_eq!(solve_function(&masks, 6), Vec::<Vec<usize>>::new());
    let mut solver = Solver::new(&masks, 6);
    assert_eq!(solver.next(), None);
    assert_eq!(solver.next(), None);
}

#[test]
fn six_of_six_entries_that_overlap_give_nothing() {
    let masks = masks_of_words(&["abcde", "fghij", "klmno", "pqrst", "uvwxy", "vwxyz"]);
    assert_eq!(solve_function(&masks, 6), Vec::<Vec<usize>>::new());
    assert_eq!(drain(&masks, 6), Vec::<Vec<usize>>::new());
}

#[test]
fn pairs_come_in_lexicographic_order() {
    // 0: ab, 1: cd, 2: bc, 3: ef
    let masks: Vec<u32> = vec![0b000011, 0b001100, 0b000110, 0b110000];
    let expected: Vec<Vec<usize>> = vec![vec![0, 1], vec![0, 3], vec![1, 3], vec![2, 3]];
    assert_eq!(solve_function(&masks, 2), expected);
    assert_eq!(drain(&masks, 2), expected);
}

#[test]
fn triples_come_in_lexicographic_order() {
    let masks: Vec<u32> = vec![0b000001, 0b000010, 0b000100, 0b001000, 0b000011];
    let expected: Vec<Vec<usize>> = vec![
        vec![0, 1, 2],
        vec![0, 1, 3],
        vec![0, 2, 3],
        vec![1, 2, 3],
        vec![2, 3, 4],
    ];
    assert_eq!(solve_function(&masks, 3), expected);
    assert_eq!(drain(&masks, 3), expected);
}

#[test]
fn next_yields_one_combination_per_call() {
    let masks: Vec<u32> = vec![0b0001, 0b0010, 0b0011, 0b0100];
    let mut solver = Solver::new(&masks, 2);
    assert_eq!(solver.next(), Some(vec![0, 1]));
    assert_eq!(solver.next(), Some(vec![0, 3]));
    assert_eq!(solver.next(), Some(vec![1, 3]));
    assert_eq!(solver.next(), Some(vec![2, 3]));
    assert_eq!(solver.next(), None);
    assert_eq!(solver.next(), None);
}

#[test]
fn group_of_one_is_every_entry() {
    let masks: Vec<u32> = vec![3, 3, 5, 0, 6];
    let expected: Vec<Vec<usize>> = vec![vec![0], vec![1], vec![2], vec![3], vec![4]];
    assert_eq!(solve_function(&masks, 1), expected);
    assert_eq!(drain(&masks, 1), expected);
}

#[test]
fn group_of_none_is_the_empty_combination_once() {
    let masks: Vec<u32> = vec![1, 2, 4];
    assert_eq!(solve_function(&masks, 0), vec![Vec::<usize>::new()]);
    let mut solver = Solver::new(&masks, 0);
    assert_eq!(solver.next(), Some(Vec::new()));
    assert_eq!(solver.next(), None);
    assert_eq!(solver.next(), None);
    let none: Vec<u32> = Vec::new();
    assert_eq!(solve_function(&none, 0), vec![Vec::<usize>::new()]);
}

#[test]
fn empty_list_gives_nothing() {
    let masks: Vec<u32> = Vec::new();
    assert_eq!(solve_function(&masks, 1), Vec::<Vec<usize>>::new());
    assert_eq!(solve_function(&masks, 5), Vec::<Vec<usize>>::new());
    assert_eq!(drain(&masks, 3), Vec::<Vec<usize>>::new());
}

#[test]
fn very_large_group_gives_nothing() {
    let masks: Vec<u32> = vec![1, 2, 4];
    assert_eq!(solve_function(&masks, usize::MAX), Vec::<Vec<usize>>::new());
    let mut solver = Solver::new(&masks, usize::MAX);
    assert_eq!(solver.next(), None);
}

#[test]
fn empty_masks_are_disjoint_from_all() {
    let masks: Vec<u32> = vec![0, 0, 7];
    let expected: Vec<Vec<usize>> = vec![vec![0, 1, 2]];
    assert_eq!(solve_function(&masks, 3), expected);
    assert_eq!(solve_function(&masks, 2), vec![vec![0, 1], vec![0, 2], vec![1, 2]]);
}

#[test]
fn emitted_masks_are_pairwise_disjoint() {
    let masks = scattered_masks(40, 7);
    for n in 0..5 {
        for c in solve_function(&masks, n) {
            assert_eq!(c.len(), n);
            for a in 0..n {
                assert!(c[a] < masks.len());
                for b in 0..n {
                    if a != b {
                        assert_eq!(masks[c[a]] & masks[c[b]], 0);
                    }
                    if a < b {
                        assert!(c[a] < c[b]);
                    }
                }
            }
        }
    }
}

#[test]
fn enumeration_matches_brute_force() {
    for seed in 1..6u64 {
        let masks = scattered_masks(30, seed);
        for n in 0..6 {
            let expected = brute_force(&masks, n);
            let found = solve_function(&masks, n);
            assert_eq!(found.len(), expected.len());
            assert_eq!(found, expected);
            assert_eq!(drain(&masks, n), expected);
        }
    }
}

#[test]
fn nothing_is_emitted_twice() {
    let masks = scattered_masks(35, 11);
    for n in 1..5 {
        let found = solve_function(&masks, n);
        for i in 1..found.len() {
            assert!(found[i - 1] < found[i]);
        }
    }
}

#[test]
fn searching_again_gives_the_same_sequence() {
    let masks = scattered_masks(35, 3);
    for n in 0..5 {
        let first = solve_function(&masks, n);
        let second = solve_function(&masks, n);
        assert_eq!(first, second);
        assert_eq!(drain(&masks, n), first);
        assert_eq!(drain(&masks, n), first);
    }
}

#[test]
fn one_list_serves_searches_of_different_sizes() {
    let masks: Vec<u32> = vec![1, 2, 4, 8];
    let mut pairs = Solver::new(&masks, 2);
    let mut triples = Solver::new(&masks, 3);
    assert_eq!(pairs.next(), Some(vec![0, 1]));
    assert_eq!(triples.next(), Some(vec![0, 1, 2]));
    assert_eq!(pairs.next(), Some(vec![0, 2]));
    assert_eq!(triples.next(), Some(vec![0, 1, 3]));
    assert_eq!(solve_function(&masks, 2).len(), 6);
    assert_eq!(solve_function(&masks, 3).len(), 4);
    assert_eq!(solve_function(&masks, 4), vec![vec![0, 1, 2, 3]]);
}

#[test]
fn unsorted_lists_are_searched_by_position() {
    let masks: Vec<u32> = vec![8, 1, 9, 2];
    assert_eq!(solve_function(&masks, 2), vec![vec![0, 1], vec![0, 3], vec![1, 3], vec![2, 3]]);
}

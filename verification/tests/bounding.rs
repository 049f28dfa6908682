use wordgrid::board::Board;
use wordgrid::bounds::{calculate_max_score, calculate_upper_bounds, counts, satisfied};
use wordgrid::letter::Letter;
use wordgrid::trie::arena::{TrieArena, TrieRef};

fn letters(word: &str) -> Vec<Letter> {
    word.chars().map(|c| Letter::from_char(c).unwrap()).collect()
}

fn board_of(rows: &str) -> Board {
    let cells = letters(&rows.replace(' ', ""));
    assert_eq!(cells.len(), 25);
    let mut grid = [Letter::A; 25];
    grid.copy_from_slice(&cells);
    Board { grid, double_word: None, double_letter: None }
}

fn node<'a>(arena: &'a TrieArena, word: &str) -> TrieRef<'a> {
    let mut at = arena.root();
    for letter in letters(word) {
        at = at.child(letter).unwrap();
    }
    at
}

#[test]
fn counts_tally_each_letter() {
    let tally = counts(&letters("BANANA"));
    assert_eq!(tally[0], 3);
    assert_eq!(tally[1], 1);
    assert_eq!(tally[13], 2);
    assert_eq!(tally.iter().sum::<usize>(), 6);
    assert_eq!(counts(&[]), [0usize; 26]);
}

#[test]
fn counts_do_not_wrap_on_long_words() {
    let long = vec![Letter::Z; 1000];
    let tally = counts(&long);
    assert_eq!(tally[25], 1000);
    assert_eq!(tally[0], 0);
}

#[test]
fn satisfied_compares_the_shortfall_with_the_swaps() {
    let have = counts(&letters("AABBC"));
    assert!(satisfied(&counts(&letters("ABC")), &have, 0));
    assert!(satisfied(&counts(&[]), &have, 0));
    assert!(!satisfied(&counts(&letters("ABCC")), &have, 0));
    assert!(satisfied(&counts(&letters("ABCC")), &have, 1));
    assert!(!satisfied(&counts(&letters("CCCZZ")), &have, 3));
    assert!(satisfied(&counts(&letters("CCCZZ")), &have, 4));
    assert!(satisfied(&counts(&letters("CCCZZ")), &have, 255));
}

#[test]
fn satisfied_does_not_wrap_on_large_counts() {
    let mut need = [0usize; 26];
    need[0] = usize::MAX;
    need[1] = usize::MAX;
    let have = [0usize; 26];
    assert!(!satisfied(&need, &have, 255));
    assert!(satisfied(&need, &need, 0));
    let long = vec![Letter::Q; 300];
    assert!(!satisfied(&counts(&long), &counts(&letters("QQQQQ")), 255));
    assert!(satisfied(&counts(&long[..260]), &counts(&letters("QQQQQ")), 255));
}

#[test]
fn the_ceiling_of_a_word() {
    assert_eq!(calculate_max_score(&[]), 0);
    assert_eq!(calculate_max_score(&letters("A")), (1 + 1) * 2);
    assert_eq!(calculate_max_score(&letters("CAT")), (8 + 5) * 2);
    assert_eq!(calculate_max_score(&letters("DOG")), (7 + 3) * 2);
    assert_eq!(calculate_max_score(&letters("QUIZ")), (21 + 8) * 2);
    assert_eq!(calculate_max_score(&letters("STREAM")), (12 + 4) * 2 + 10);
    assert_eq!(calculate_max_score(&vec![Letter::Z; 4094]), ((8 * 4094 + 8) * 2 + 10) as u16);
}

#[test]
fn bounds_take_the_best_word_below_each_node() {
    let board = board_of("CATDO GSTRE AMZZZ ZZZZZ ZZZZZ");
    let arena = TrieArena::new(&["cat", "cats", "dog", "stream", "do"]).unwrap();
    let bounds = calculate_upper_bounds(&arena, &board, 0);
    assert_eq!(bounds.len(), arena.len());
    let cat = (8 + 5) * 2;
    let cats = (10 + 5) * 2;
    let dog = (7 + 3) * 2;
    let d_o = (4 + 3) * 2;
    let stream = (12 + 4) * 2 + 10;
    assert_eq!(bounds[node(&arena, "CATS").index()], cats);
    assert_eq!(bounds[node(&arena, "CAT").index()], cats);
    assert_eq!(bounds[node(&arena, "C").index()], cats);
    assert_eq!(bounds[node(&arena, "DOG").index()], dog);
    assert_eq!(bounds[node(&arena, "DO").index()], dog);
    assert!(d_o < dog);
    assert_eq!(bounds[node(&arena, "STREAM").index()], stream);
    assert_eq!(bounds[node(&arena, "S").index()], stream);
    assert_eq!(bounds[arena.root().index()], stream);
}

#[test]
fn bounds_are_zero_where_the_board_lacks_the_letters() {
    let board = board_of("CATZZ ZZZZZ ZZZZZ ZZZZZ ZZZZZ");
    let arena = TrieArena::new(&["cat", "cab", "dog", "act"]).unwrap();
    let none = calculate_upper_bounds(&arena, &board, 0);
    assert_eq!(none[node(&arena, "CAT").index()], 26);
    assert_eq!(none[node(&arena, "ACT").index()], 26);
    assert_eq!(none[node(&arena, "CAB").index()], 0);
    assert_eq!(none[node(&arena, "CA").index()], 26);
    assert_eq!(none[node(&arena, "D").index()], 0);
    assert_eq!(none[node(&arena, "DO").index()], 0);
    assert_eq!(none[node(&arena, "DOG").index()], 0);
    assert_eq!(none[arena.root().index()], 26);

    let one = calculate_upper_bounds(&arena, &board, 1);
    assert_eq!(one[node(&arena, "CAB").index()], (10 + 5) * 2);
    assert_eq!(one[node(&arena, "CA").index()], 30);
    assert_eq!(one[node(&arena, "D").index()], 0);
    assert_eq!(one[node(&arena, "DO").index()], 0);
    assert_eq!(one[arena.root().index()], 30);

    let three = calculate_upper_bounds(&arena, &board, 3);
    assert_eq!(three[node(&arena, "DOG").index()], 20);
    assert_eq!(three[node(&arena, "D").index()], 20);
    assert_eq!(three[arena.root().index()], 30);
}

#[test]
fn bounds_stop_where_a_prefix_is_out_of_reach() {
    // The board holds one D: "DD" lacks a letter, whatever follows.
    let board = board_of("DOGAA AAAAA AAAAA AAAAA AAAAA");
    let arena = TrieArena::new(&["ddoga", "dog"]).unwrap();
    let bounds = calculate_upper_bounds(&arena, &board, 0);
    assert_eq!(bounds[node(&arena, "DD").index()], 0);
    assert_eq!(bounds[node(&arena, "DDOGA").index()], 0);
    assert_eq!(bounds[node(&arena, "D").index()], 20);
}

#[test]
fn bounds_of_a_very_long_word_stay_zero() {
    let long: String = std::iter::repeat('a').take(400).collect();
    let arena = TrieArena::new(&[long.as_str(), "aa"]).unwrap();
    let board = board_of("AAAAA AAAAA AAAAA AAAAA AAAAA");
    let bounds = calculate_upper_bounds(&arena, &board, 255);
    assert_eq!(bounds.len(), 401);
    // Only "AA" ends within reach: words of more than 25 + 255 letters do not.
    assert_eq!(bounds[0], (2 + 1) * 2);
    assert_eq!(bounds[2], 6);
    assert_eq!(bounds[3], 0);
    assert_eq!(bounds[400], 0);
}

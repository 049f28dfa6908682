use wordgrid::board::Board;
use wordgrid::bounds::calculate_upper_bounds;
use wordgrid::letter::Letter;
use wordgrid::score::score;
use wordgrid::solution::Solution;
use wordgrid::solve::solve;
use wordgrid::tile::Tile;
use wordgrid::trie::arena::TrieArena;

fn letters(word: &str) -> Vec<Letter> {
    word.chars().map(|c| Letter::from_char(c).unwrap()).collect()
}

fn board_of(rows: &str) -> Board {
    let cells = letters(&rows.replace(' ', ""));
    assert_eq!(cells.len(), 25);
    let mut grid = [Letter::A; 25];
    grid.copy_from_slice(&cells);
    Board { grid, double_word: None, double_letter: None }
}

fn word_of(solution: &Solution) -> String {
    solution.path.iter().map(|&(_, l)| l.to_char()).collect()
}

fn tiles_of(solution: &Solution) -> Vec<u8> {
    solution.path.iter().map(|&(t, _)| t.ordinal()).collect()
}

fn adjacent(a: u8, b: u8) -> bool {
    a != b && ((a % 5) as i8 - (b % 5) as i8).abs() <= 1 && ((a / 5) as i8 - (b / 5) as i8).abs() <= 1
}

/// Every path over `board` that spells `word` with at most `swaps` swaps.
fn paths_for(board: &Board, word: &[Letter], swaps: u8) -> Vec<Vec<(Tile, Letter)>> {
    fn go(
        board: &Board,
        word: &[Letter],
        swaps: u8,
        path: &mut Vec<(Tile, Letter)>,
        out: &mut Vec<Vec<(Tile, Letter)>>,
    ) {
        if path.len() == word.len() {
            out.push(path.clone());
            return;
        }
        let letter = word[path.len()];
        for i in 0..25u8 {
            let tile = Tile::index(i).unwrap();
            if path.iter().any(|&(t, _)| t == tile) {
                continue;
            }
            if let Some(&(last, _)) = path.last() {
                if !adjacent(last.ordinal(), i) {
                    continue;
                }
            }
            let cost = if board.grid[i as usize] == letter { 0 } else { 1 };
            if cost > swaps {
                continue;
            }
            path.push((tile, letter));
            go(board, word, swaps - cost, path, out);
            path.pop();
        }
    }
    let mut out = Vec::new();
    go(board, word, swaps, &mut Vec::new(), &mut out);
    out
}

/// The scores of all solutions, highest first.
fn all_scores(board: &Board, words: &[&str], swaps: u8) -> Vec<u16> {
    let mut unique: Vec<Vec<Letter>> = words.iter().map(|w| letters(w)).collect();
    unique.sort();
    unique.dedup();
    let mut scores = Vec::new();
    for word in unique {
        for path in paths_for(board, &word, swaps) {
            scores.push(score(board, &path));
        }
    }
    scores.sort_unstable_by(|a, b| b.cmp(a));
    scores
}

fn check_solutions(board: &Board, words: &[&str], swaps: u8, limit: usize) -> Vec<Solution> {
    let arena = TrieArena::new(words).unwrap();
    let found = solve(board, &arena, swaps, limit);
    let upper: Vec<String> = words.iter().map(|w| w.to_uppercase()).collect();
    for solution in &found {
        let tiles = tiles_of(solution);
        for (i, &a) in tiles.iter().enumerate() {
            for &b in &tiles[i + 1..] {
                assert_ne!(a, b);
            }
        }
        for pair in tiles.windows(2) {
            assert!(adjacent(pair[0], pair[1]));
        }
        assert!(upper.contains(&word_of(solution)));
        let changed = solution
            .path
            .iter()
            .filter(|&&(t, l)| board.grid[t.ordinal() as usize] != l)
            .count();
        assert!(changed <= swaps as usize);
        assert_eq!(solution.score, score(board, solution.path.as_slice()));
    }
    for (i, a) in found.iter().enumerate() {
        for b in &found[i + 1..] {
            assert_ne!(a.path, b.path);
        }
    }
    let expected = all_scores(board, words, swaps);
    let scores: Vec<u16> = found.iter().map(|s| s.score).collect();
    let cut = expected.len().min(limit);
    assert_eq!(scores, expected[..cut].to_vec());
    found
}

const SMALL: &str = "CATZZ DOGZZ RATZZ ZZZZZ ZZZZZ";

#[test]
fn cat_and_dog_are_found_once_each() {
    let board = board_of(SMALL);
    let found = check_solutions(&board, &["CAT", "DOG"], 0, 10);
    assert_eq!(found.len(), 2);
    assert_eq!(word_of(&found[0]), "CAT");
    assert_eq!(found[0].score, 8);
    assert_eq!(tiles_of(&found[0]), vec![0, 1, 2]);
    assert_eq!(word_of(&found[1]), "DOG");
    assert_eq!(found[1].score, 7);
    assert_eq!(tiles_of(&found[1]), vec![5, 6, 7]);
}

#[test]
fn the_same_word_on_two_paths_is_two_solutions() {
    let board = board_of(SMALL);
    let found = check_solutions(&board, &["got", "rat"], 0, 10);
    assert_eq!(found.len(), 3);
    // GOT goes from G over O to either of the two Ts that the O touches.
    assert_eq!(word_of(&found[0]), "GOT");
    assert_eq!(word_of(&found[1]), "GOT");
    assert_eq!(found[0].score, 6);
    assert_eq!(found[1].score, 6);
    let mut ends = vec![tiles_of(&found[0]), tiles_of(&found[1])];
    ends.sort();
    assert_eq!(ends, vec![vec![7, 6, 2], vec![7, 6, 12]]);
    assert_eq!(word_of(&found[2]), "RAT");
    assert_eq!(tiles_of(&found[2]), vec![10, 11, 12]);
    assert_eq!(found[2].score, 5);
}

#[test]
fn a_double_word_tile_under_the_first_letter_doubles_the_score() {
    let plain = board_of(SMALL);
    let mut bonus = board_of(SMALL);
    bonus.double_word = Some(Tile::A1);
    let before = check_solutions(&plain, &["dog"], 0, 5);
    let after = check_solutions(&bonus, &["dog"], 0, 5);
    assert_eq!(before.len(), 1);
    assert_eq!(after.len(), 1);
    assert_eq!(before[0].score, 7);
    assert_eq!(after[0].score, 14);
    assert_eq!(after[0].path, before[0].path);
}

#[test]
fn a_double_letter_tile_doubles_its_letter() {
    let mut board = board_of(SMALL);
    board.double_letter = Some(Tile::C1);
    let found = check_solutions(&board, &["dog", "cat"], 0, 5);
    assert_eq!(found.len(), 2);
    assert_eq!(word_of(&found[0]), "DOG");
    assert_eq!(found[0].score, 3 + 1 + 6);
    assert_eq!(found[1].score, 8);
}

#[test]
fn one_swap_finds_a_word_that_needs_one_change() {
    let board = board_of(SMALL);
    let none = check_solutions(&board, &["cab"], 0, 50);
    assert!(none.is_empty());
    let some = check_solutions(&board, &["cab"], 1, 50);
    assert_eq!(some.len(), 4);
    for solution in &some {
        assert_eq!(word_of(solution), "CAB");
        assert_eq!(solution.score, 10);
        let changed = solution
            .path
            .iter()
            .filter(|&&(t, l)| board.grid[t.ordinal() as usize] != l)
            .count();
        assert_eq!(changed, 1);
    }
    let mut paths: Vec<Vec<u8>> = some.iter().map(tiles_of).collect();
    paths.sort();
    assert_eq!(paths, vec![vec![0, 1, 2], vec![0, 1, 5], vec![0, 1, 6], vec![0, 1, 7]]);
}

#[test]
fn swaps_are_not_spent_where_the_board_agrees() {
    let board = board_of(SMALL);
    let found = check_solutions(&board, &["cat"], 1, 100);
    assert!(found.iter().any(|s| tiles_of(s) == vec![0, 1, 2]));
    // With one swap, CAT is also found with any one of its tiles changed.
    assert!(found.len() > 1);
}

#[test]
fn no_results_asked_for_gives_none() {
    let board = board_of(SMALL);
    assert!(check_solutions(&board, &["cat", "dog", "rat"], 0, 0).is_empty());
    assert!(check_solutions(&board, &["cat", "dog", "rat"], 1, 0).is_empty());
}

#[test]
fn an_empty_dictionary_gives_none() {
    let board = board_of(SMALL);
    assert!(check_solutions(&board, &[], 2, 10).is_empty());
}

#[test]
fn the_empty_word_is_found_on_the_empty_path() {
    let board = board_of(SMALL);
    let found = check_solutions(&board, &["", "cat"], 0, 10);
    assert_eq!(found.len(), 2);
    assert_eq!(found[0].score, 8);
    assert_eq!(found[1].score, 0);
    assert!(found[1].path.is_empty());
}

#[test]
fn a_word_of_one_letter_is_found_on_every_tile_that_holds_it() {
    let board = board_of(SMALL);
    let found = check_solutions(&board, &["a"], 0, 10);
    assert_eq!(found.len(), 2);
    let mut tiles: Vec<u8> = found.iter().map(|s| s.path[0].0.ordinal()).collect();
    tiles.sort();
    assert_eq!(tiles, vec![1, 11]);
    assert!(found.iter().all(|s| s.score == 1));
    assert_eq!(check_solutions(&board, &["a"], 1, 100).len(), 25);
}

#[test]
fn a_word_that_the_board_cannot_spell_is_not_found() {
    let board = board_of(SMALL);
    assert!(check_solutions(&board, &["cab", "card", "tact"], 0, 10).is_empty());
    assert_eq!(check_solutions(&board, &["god"], 0, 10).len(), 1);
}

#[test]
fn long_words_earn_the_bonus() {
    let board = board_of("STREA ZZZZM ZZZZZ ZZZZZ ZZZZZ");
    let found = check_solutions(&board, &["stream", "stre", "tree"], 0, 10);
    assert_eq!(found.len(), 2);
    assert_eq!(word_of(&found[0]), "STREAM");
    assert_eq!(found[0].score, 2 + 2 + 2 + 1 + 1 + 4 + 10);
    assert_eq!(word_of(&found[1]), "STRE");
    assert_eq!(found[1].score, 7);
}

#[test]
fn more_results_keep_the_scores_of_fewer() {
    let board = board_of("STEAM TRAIN EARTH NOTES GREAT");
    let words = [
        "steam", "team", "tea", "eat", "ate", "train", "rain", "earth", "ear", "art", "note",
        "notes", "great", "tear", "rate", "star", "tart", "heat", "seat", "tree", "street",
    ];
    let arena = TrieArena::new(&words).unwrap();
    let mut last: Vec<u16> = Vec::new();
    for limit in [0usize, 1, 2, 3, 5, 8, 13, 40, 200, 2000] {
        let found = check_solutions(&board, &words, 0, limit);
        let scores: Vec<u16> = found.iter().map(|s| s.score).collect();
        assert!(scores.len() >= last.len());
        assert_eq!(&scores[..last.len()], &last[..]);
        last = scores;
    }
    let few = solve(&board, &arena, 0, 3);
    let many = solve(&board, &arena, 0, 2000);
    for solution in &few {
        let kept = many.iter().any(|s| s.path == solution.path);
        assert!(kept || many.last().unwrap().score == solution.score);
    }
}

#[test]
fn pruning_loses_no_solution_with_swaps() {
    let board = board_of("STEAM TRAIN EARTH NOTES GREAT");
    let words = ["steam", "quiz", "jazz", "train", "zebra", "earth", "notes", "mixer", "ox"];
    for swaps in 0..=2u8 {
        for limit in [1usize, 4, 30] {
            check_solutions(&board, &words, swaps, limit);
        }
    }
}

#[test]
fn bonus_tiles_and_swaps_together() {
    let mut board = board_of("QUIZA JAZZB BOXES ZEBRA MIXER");
    board.double_letter = Some(Tile::D0);
    board.double_word = Some(Tile::C1);
    let words = ["quiz", "jazz", "box", "boxes", "zebra", "mixer", "axe", "zax", "bez", "razz"];
    for swaps in 0..=1u8 {
        for limit in [1usize, 3, 10, 1000] {
            check_solutions(&board, &words, swaps, limit);
        }
    }
}

#[test]
fn solving_twice_gives_the_same() {
    let board = board_of("STEAM TRAIN EARTH NOTES GREAT");
    let arena = TrieArena::new(&["steam", "team", "tea", "eat", "rain", "near"]).unwrap();
    let first = solve(&board, &arena, 1, 25);
    let second = solve(&board, &arena, 1, 25);
    assert_eq!(first, second);
}

#[test]
fn no_solution_scores_more_than_the_bounds_on_its_way() {
    let mut board = board_of("QUIZA JAZZB BOXES ZEBRA MIXER");
    board.double_letter = Some(Tile::A0);
    board.double_word = Some(Tile::B0);
    let words = ["quiz", "jazz", "box", "boxes", "zebra", "mixer", "axe", "zax", "bez", "razz"];
    let arena = TrieArena::new(&words).unwrap();
    for swaps in 0..=2u8 {
        let bounds = calculate_upper_bounds(&arena, &board, swaps);
        let found = solve(&board, &arena, swaps, 100_000);
        assert!(!found.is_empty());
        for solution in &found {
            let mut node = arena.root();
            assert!(solution.score <= bounds[node.index()]);
            for &(_, letter) in solution.path.iter() {
                node = node.child(letter).unwrap();
                assert!(solution.score <= bounds[node.index()]);
            }
            assert!(node.is_end_of_word());
        }
    }
}

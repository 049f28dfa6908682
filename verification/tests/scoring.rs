use wordgrid::board::Board;
use wordgrid::letter::Letter;
use wordgrid::score::{letter_score, long_word_bonus, score};
use wordgrid::tile::Tile;

fn plain_board() -> Board {
    Board { grid: [Letter::A; 25], double_word: None, double_letter: None }
}

fn word_on_row(word: &str) -> Vec<(Tile, Letter)> {
    word.chars()
        .enumerate()
        .map(|(i, c)| (Tile::index(i as u8).unwrap(), Letter::from_char(c).unwrap()))
        .collect()
}

#[test]
fn every_letter_has_its_value() {
    let table = [
        ("AEIO", 1u16),
        ("NRST", 2),
        ("DGL", 3),
        ("BHMPUY", 4),
        ("CFVW", 5),
        ("K", 6),
        ("JX", 7),
        ("QZ", 8),
    ];
    let mut seen = 0;
    for (letters, value) in table {
        for c in letters.chars() {
            assert_eq!(letter_score(Letter::from_char(c).unwrap()), value);
            seen += 1;
        }
    }
    assert_eq!(seen, 26);
}

#[test]
fn the_bonus_starts_at_six_letters() {
    assert_eq!(long_word_bonus(0), 0);
    assert_eq!(long_word_bonus(5), 0);
    assert_eq!(long_word_bonus(6), 10);
    assert_eq!(long_word_bonus(7), 10);
    assert_eq!(long_word_bonus(25), 10);
    assert_eq!(long_word_bonus(usize::MAX), 10);
}

#[test]
fn the_empty_path_scores_nothing() {
    assert_eq!(score(&plain_board(), &[]), 0);
}

#[test]
fn a_plain_word_scores_the_sum_of_its_letters() {
    assert_eq!(score(&plain_board(), &word_on_row("CAT")), 8);
    assert_eq!(score(&plain_board(), &word_on_row("DOG")), 7);
    assert_eq!(score(&plain_board(), &word_on_row("QUIZ")), 8 + 4 + 1 + 8);
}

#[test]
fn the_double_letter_tile_doubles_its_letter_only() {
    let mut board = plain_board();
    board.double_letter = Some(Tile::A0);
    assert_eq!(score(&board, &word_on_row("CAT")), 2 * 5 + 1 + 2);
    board.double_letter = Some(Tile::C0);
    assert_eq!(score(&board, &word_on_row("CAT")), 5 + 1 + 2 * 2);
    board.double_letter = Some(Tile::E4);
    assert_eq!(score(&board, &word_on_row("CAT")), 8);
}

#[test]
fn the_double_word_tile_doubles_the_sum() {
    let mut board = plain_board();
    board.double_word = Some(Tile::B0);
    assert_eq!(score(&board, &word_on_row("CAT")), 16);
    board.double_word = Some(Tile::D0);
    assert_eq!(score(&board, &word_on_row("CAT")), 8);
}

#[test]
fn both_bonus_tiles_combine() {
    let mut board = plain_board();
    board.double_letter = Some(Tile::A0);
    board.double_word = Some(Tile::C0);
    assert_eq!(score(&board, &word_on_row("CAT")), (2 * 5 + 1 + 2) * 2);
    board.double_word = Some(Tile::A0);
    assert_eq!(score(&board, &word_on_row("CAT")), (2 * 5 + 1 + 2) * 2);
}

#[test]
fn the_length_bonus_is_not_doubled() {
    let mut board = plain_board();
    let path: Vec<(Tile, Letter)> = [0u8, 1, 2, 3, 4, 9]
        .iter()
        .zip("STREAM".chars())
        .map(|(&i, c)| (Tile::index(i).unwrap(), Letter::from_char(c).unwrap()))
        .collect();
    assert_eq!(score(&board, &path), 2 + 2 + 2 + 1 + 1 + 4 + 10);
    board.double_word = Some(Tile::E1);
    assert_eq!(score(&board, &path), (2 + 2 + 2 + 1 + 1 + 4) * 2 + 10);
    board.double_letter = Some(Tile::E1);
    assert_eq!(score(&board, &path), (2 + 2 + 2 + 1 + 1 + 8) * 2 + 10);
}

#[test]
fn scoring_again_gives_the_same() {
    let mut board = plain_board();
    board.double_letter = Some(Tile::B0);
    board.double_word = Some(Tile::C0);
    let path = word_on_row("JAZZY");
    let first = score(&board, &path);
    for _ in 0..10 {
        assert_eq!(score(&board, &path), first);
    }
    assert_eq!(first, (7 + 2 + 8 + 8 + 4) * 2);
}

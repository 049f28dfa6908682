use wordgrid::letter::Letter;
use wordgrid::letter_set::LetterSet;

#[test]
fn letters_read_in_either_case() {
    assert_eq!(Letter::from_char('A'), Some(Letter::A));
    assert_eq!(Letter::from_char('a'), Some(Letter::A));
    assert_eq!(Letter::from_char('Z'), Some(Letter::Z));
    assert_eq!(Letter::from_char('z'), Some(Letter::Z));
    assert_eq!(Letter::from_char('m'), Some(Letter::M));
}

#[test]
fn characters_outside_the_alphabet_are_no_letters() {
    for c in ['@', '[', '`', '{', '0', ' ', '-', 'é', 'ß', '\n'] {
        assert_eq!(Letter::from_char(c), None);
        assert_eq!(Letter::try_from(c), Err(()));
    }
}

#[test]
fn letters_write_as_upper_case() {
    assert_eq!(Letter::A.to_char(), 'A');
    assert_eq!(Letter::Q.to_char(), 'Q');
    assert_eq!(Letter::Z.to_char(), 'Z');
    assert_eq!(char::from(Letter::K), 'K');
}

#[test]
fn every_letter_survives_the_round_trip() {
    for i in 0..26u8 {
        let letter = Letter::from_ordinal(i).unwrap();
        assert_eq!(letter.ordinal(), i);
        assert_eq!(Letter::from_char(letter.to_char()), Some(letter));
        assert_eq!(Letter::try_from(letter.to_char().to_ascii_lowercase()), Ok(letter));
        assert_eq!(letter.to_char() as u8, b'A' + i);
    }
    assert_eq!(Letter::from_ordinal(26), None);
    assert_eq!(Letter::from_ordinal(255), None);
}

#[test]
fn letters_are_ordered_as_the_alphabet() {
    assert!(Letter::A < Letter::B);
    assert!(Letter::Y < Letter::Z);
    assert!(Letter::M > Letter::C);
}

#[test]
fn letter_set_counts_and_ranks() {
    let mut set = LetterSet::empty();
    assert_eq!(set.len(), 0);
    assert!(!set.contains(Letter::A));
    set.insert(Letter::T);
    set.insert(Letter::C);
    set.insert(Letter::Z);
    set.insert(Letter::C);
    assert_eq!(set.len(), 3);
    assert!(set.contains(Letter::C));
    assert!(set.contains(Letter::T));
    assert!(set.contains(Letter::Z));
    assert!(!set.contains(Letter::D));
    assert_eq!(set.rank_of(Letter::A), 0);
    assert_eq!(set.rank_of(Letter::C), 0);
    assert_eq!(set.rank_of(Letter::D), 1);
    assert_eq!(set.rank_of(Letter::T), 1);
    assert_eq!(set.rank_of(Letter::U), 2);
    assert_eq!(set.rank_of(Letter::Z), 2);
}

#[test]
fn letter_set_of_the_whole_alphabet() {
    let mut set = LetterSet::empty();
    for i in 0..26u8 {
        set.insert(Letter::from_ordinal(i).unwrap());
    }
    assert_eq!(set.len(), 26);
    for i in 0..26u8 {
        assert_eq!(set.rank_of(Letter::from_ordinal(i).unwrap()), i as usize);
    }
}

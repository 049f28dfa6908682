use arrayvec::ArrayVec;
use wordgrid::letter::Letter;
use wordgrid::shortlist::Shortlist;
use wordgrid::solution::Solution;
use wordgrid::tile::Tile;

fn entry(tag: u8, score: u16) -> Solution {
    let mut path = ArrayVec::new();
    path.push((Tile::index(tag).unwrap(), Letter::A));
    Solution { path, score }
}

fn tags(list: Shortlist) -> Vec<(u8, u16)> {
    list.into_sorted_vec().iter().map(|s| (s.path[0].0.ordinal(), s.score)).collect()
}

#[test]
fn a_new_list_is_empty() {
    let list = Shortlist::new(3);
    assert_eq!(list.len(), 0);
    assert_eq!(list.lowest(), None);
    assert!(!list.is_full());
    assert!(Shortlist::new(0).is_full());
    assert_eq!(tags(list), vec![]);
}

#[test]
fn offers_are_kept_in_descending_order() {
    let mut list = Shortlist::new(5);
    for (tag, score) in [(0, 7), (1, 12), (2, 3), (3, 9)] {
        list.offer(entry(tag, score));
    }
    assert_eq!(list.len(), 4);
    assert_eq!(list.lowest(), Some(3));
    assert!(!list.is_full());
    assert_eq!(tags(list), vec![(1, 12), (3, 9), (0, 7), (2, 3)]);
}

#[test]
fn a_full_list_drops_its_lowest() {
    let mut list = Shortlist::new(3);
    for (tag, score) in [(0, 7), (1, 12), (2, 3), (3, 9)] {
        list.offer(entry(tag, score));
    }
    assert!(list.is_full());
    assert_eq!(list.lowest(), Some(7));
    list.offer(entry(4, 1));
    assert_eq!(list.lowest(), Some(7));
    list.offer(entry(5, 20));
    assert_eq!(list.lowest(), Some(9));
    assert_eq!(tags(list), vec![(5, 20), (1, 12), (3, 9)]);
}

#[test]
fn among_equal_scores_the_first_found_stays() {
    let mut list = Shortlist::new(2);
    list.offer(entry(0, 5));
    list.offer(entry(1, 5));
    list.offer(entry(2, 5));
    assert_eq!(tags(list), vec![(0, 5), (1, 5)]);

    let mut list = Shortlist::new(3);
    list.offer(entry(0, 5));
    list.offer(entry(1, 8));
    list.offer(entry(2, 5));
    list.offer(entry(3, 8));
    assert_eq!(tags(list), vec![(1, 8), (3, 8), (0, 5)]);
}

#[test]
fn a_list_without_room_keeps_nothing() {
    let mut list = Shortlist::new(0);
    list.offer(entry(0, 5));
    list.offer(entry(1, 50));
    assert_eq!(list.len(), 0);
    assert_eq!(list.lowest(), None);
    assert_eq!(tags(list), vec![]);
}

#[test]
fn a_list_of_one_keeps_the_best() {
    let mut list = Shortlist::new(1);
    for (tag, score) in [(0, 7), (1, 12), (2, 3), (3, 12), (4, 11)] {
        list.offer(entry(tag, score));
    }
    assert_eq!(tags(list), vec![(1, 12)]);
}

#[test]
fn solutions_compare_and_copy() {
    let a = entry(3, 9);
    let b = a.clone();
    assert_eq!(a, b);
    assert_eq!(b.score, 9);
    assert_eq!(b.path.as_slice(), &[(Tile::D0, Letter::A)]);
    assert_ne!(a, entry(3, 10));
    assert_ne!(a, entry(4, 9));
}

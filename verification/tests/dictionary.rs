use wordgrid::letter::Letter;
use wordgrid::trie::arena::{BadWord, TrieArena, TrieRef};
use wordgrid::trie::large::LargeTrieNode;
use wordgrid::word::{parse_word, NotALetter};

fn letters(word: &str) -> Vec<Letter> {
    word.chars().map(|c| Letter::from_char(c).unwrap()).collect()
}

fn walk<'a>(arena: &'a TrieArena, word: &str) -> Option<TrieRef<'a>> {
    let mut node = arena.root();
    for letter in letters(word) {
        node = node.child(letter)?;
    }
    Some(node)
}

fn holds(arena: &TrieArena, word: &str) -> bool {
    walk(arena, word).map_or(false, |node| node.is_end_of_word())
}

fn tree_holds(mut node: LargeTrieNode, word: &str) -> bool {
    for letter in letters(word) {
        match node.into_children().into_iter().find(|(l, _)| *l == letter) {
            Some((_, child)) => node = child,
            None => return false,
        }
    }
    node.is_end_of_word()
}

fn grown(words: &[&str]) -> LargeTrieNode {
    let mut root = LargeTrieNode::new();
    for word in words {
        assert_eq!(root.insert_word(word), Ok(()));
    }
    root
}

#[test]
fn words_parse_without_regard_to_case() {
    assert_eq!(parse_word("Cat"), Ok(vec![Letter::C, Letter::A, Letter::T]));
    assert_eq!(parse_word(""), Ok(vec![]));
    assert_eq!(parse_word("zZ"), Ok(vec![Letter::Z, Letter::Z]));
}

#[test]
fn a_text_with_a_foreign_character_is_no_word() {
    assert_eq!(parse_word("ca-t"), Err(NotALetter { position: 2 }));
    assert_eq!(parse_word("1cat"), Err(NotALetter { position: 0 }));
    assert_eq!(parse_word("cat "), Err(NotALetter { position: 3 }));
    assert_eq!(parse_word("caté!"), Err(NotALetter { position: 3 }));
}

#[test]
fn the_empty_tree_holds_nothing() {
    assert!(!tree_holds(LargeTrieNode::new(), ""));
    assert!(!tree_holds(LargeTrieNode::new(), "A"));
    assert!(!LargeTrieNode::new().is_end_of_word());
    assert_eq!(LargeTrieNode::new().letters().len(), 0);
    assert_eq!(LargeTrieNode::default().into_children().len(), 0);
}

#[test]
fn a_tree_holds_what_was_inserted() {
    let words = ["cat", "car", "cart", "dog", "do"];
    for word in ["CAT", "CAR", "CART", "DOG", "DO"] {
        assert!(tree_holds(grown(&words), word));
    }
    for word in ["", "C", "CA", "D", "DOGS", "CARTS", "A", "AT"] {
        assert!(!tree_holds(grown(&words), word));
    }
}

#[test]
fn inserting_twice_changes_nothing() {
    let mut root = grown(&["cat", "cat", "CAT"]);
    assert_eq!(root.insert_word("cAt"), Ok(()));
    assert_eq!(root.letters().len(), 1);
    let children = root.into_children();
    assert_eq!(children.len(), 1);
    assert_eq!(children[0].0, Letter::C);
}

#[test]
fn a_bad_word_is_not_inserted() {
    let mut root = grown(&["cat"]);
    assert_eq!(root.insert_word("do g"), Err(NotALetter { position: 2 }));
    assert_eq!(root.letters().len(), 1);
    assert!(root.letters().contains(Letter::C));
    assert!(!root.letters().contains(Letter::D));
    assert!(!tree_holds(root, "DO"));
}

#[test]
fn the_empty_word_ends_at_the_root() {
    let mut root = LargeTrieNode::new();
    assert_eq!(root.insert_word(""), Ok(()));
    assert!(root.is_end_of_word());
    assert_eq!(root.letters().len(), 0);
}

#[test]
fn children_come_out_in_alphabetical_order() {
    let root = grown(&["zoo", "apple", "mango", "mop", "bee", "Zed", "kiwi"]);
    let set = root.letters();
    assert_eq!(set.len(), 5);
    let order: Vec<Letter> = root.into_children().into_iter().map(|(l, _)| l).collect();
    assert_eq!(order, vec![Letter::A, Letter::B, Letter::K, Letter::M, Letter::Z]);
    for l in &order {
        assert!(set.contains(*l));
    }
}

#[test]
fn an_arena_holds_the_words_of_its_list() {
    let arena = TrieArena::new(&["cat", "car", "cart", "dog", "do", "a"]).unwrap();
    for word in ["CAT", "CAR", "CART", "DOG", "DO", "A"] {
        assert!(holds(&arena, word));
    }
    for word in ["", "C", "CA", "D", "DOGS", "CARTS", "AT", "Z"] {
        assert!(!holds(&arena, word));
    }
    assert!(walk(&arena, "CA").is_some());
    assert!(walk(&arena, "CARTS").is_none());
    assert!(walk(&arena, "B").is_none());
}

#[test]
fn an_arena_has_one_node_for_each_prefix() {
    let arena = TrieArena::new(&["cat", "car", "cart", "dog", "do"]).unwrap();
    // "", C, CA, CAT, CAR, CART, D, DO, DOG
    assert_eq!(arena.len(), 9);
    assert_eq!(TrieArena::new(&[]).unwrap().len(), 1);
    assert_eq!(TrieArena::new(&["", ""]).unwrap().len(), 1);
    assert!(TrieArena::new(&[""]).unwrap().root().is_end_of_word());
    assert!(!TrieArena::new(&["a"]).unwrap().root().is_end_of_word());
}

#[test]
fn the_children_of_a_node_stand_side_by_side_in_order() {
    let arena = TrieArena::new(&["mop", "zoo", "apple", "mango", "bee"]).unwrap();
    let root = arena.root();
    assert_eq!(root.index(), 0);
    let kids = root.children();
    let order: Vec<Letter> = kids.iter().map(|(l, _)| *l).collect();
    assert_eq!(order, vec![Letter::A, Letter::B, Letter::M, Letter::Z]);
    for (k, (letter, child)) in kids.iter().enumerate() {
        assert_eq!(child.index(), kids[0].1.index() + k);
        assert_eq!(root.child(*letter).unwrap().index(), child.index());
        assert!(child.index() > root.index());
    }
    assert!(root.child(Letter::C).is_none());
    let m = root.child(Letter::M).unwrap();
    let below: Vec<Letter> = m.children().iter().map(|(l, _)| *l).collect();
    assert_eq!(below, vec![Letter::A, Letter::O]);
    assert!(walk(&arena, "MOP").unwrap().children().is_empty());
}

#[test]
fn every_node_of_an_arena_is_reached_once() {
    let words = ["stream", "steam", "team", "tea", "eat", "ate", "meat", "mate", "master"];
    let arena = TrieArena::new(&words).unwrap();
    let mut seen = vec![false; arena.len()];
    let mut stack = vec![arena.root()];
    while let Some(node) = stack.pop() {
        assert!(!seen[node.index()]);
        seen[node.index()] = true;
        for (_, child) in node.children() {
            stack.push(child);
        }
    }
    assert!(seen.iter().all(|&s| s));
}

#[test]
fn a_bad_word_stops_the_build() {
    assert_eq!(
        TrieArena::new(&["cat", "d0g", "b!rd"]).err(),
        Some(BadWord { word: 1, position: 1 })
    );
    assert_eq!(TrieArena::new(&["cat", "dog", "bird "]).err(), Some(BadWord { word: 2, position: 4 }));
    assert_eq!(TrieArena::new(&["naïve"]).err(), Some(BadWord { word: 0, position: 2 }));
    assert!(TrieArena::new(&["cat", "Dog", "BIRD"]).is_ok());
}

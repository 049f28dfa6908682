use wordgrid::letter::Letter;
use wordgrid::path::PathState;
use wordgrid::tile::{Tile, TileSet};

fn members(set: &TileSet) -> Vec<u8> {
    (0..25u8).filter(|&i| set.contains(Tile::index(i).unwrap())).collect()
}

#[test]
fn before_the_first_step_every_tile_is_open() {
    let state = PathState::new();
    assert!(state.path().is_empty());
    assert_eq!(members(&state.neighbours()).len(), 25);
    assert!(PathState::default().path().is_empty());
}

#[test]
fn a_step_opens_the_neighbours_of_its_tile() {
    let mut state = PathState::new();
    state.push(Tile::A0, Letter::C);
    assert_eq!(state.path().as_slice(), &[(Tile::A0, Letter::C)]);
    assert_eq!(members(&state.neighbours()), vec![1, 5, 6]);
}

#[test]
fn visited_tiles_are_closed() {
    let mut state = PathState::new();
    state.push(Tile::A0, Letter::C);
    state.push(Tile::B1, Letter::A);
    assert_eq!(members(&state.neighbours()), vec![1, 2, 5, 7, 10, 11, 12]);
    state.push(Tile::B0, Letter::T);
    assert_eq!(members(&state.neighbours()), vec![2, 5, 7]);
    assert_eq!(
        state.path().as_slice(),
        &[(Tile::A0, Letter::C), (Tile::B1, Letter::A), (Tile::B0, Letter::T)]
    );
}

#[test]
fn a_pop_takes_the_last_step_back() {
    let mut state = PathState::new();
    state.push(Tile::A0, Letter::C);
    state.push(Tile::B1, Letter::A);
    state.push(Tile::B0, Letter::T);
    state.pop();
    assert_eq!(state.path().as_slice(), &[(Tile::A0, Letter::C), (Tile::B1, Letter::A)]);
    assert_eq!(members(&state.neighbours()), vec![1, 2, 5, 7, 10, 11, 12]);
    state.pop();
    assert_eq!(members(&state.neighbours()), vec![1, 5, 6]);
    state.pop();
    assert!(state.path().is_empty());
    assert_eq!(members(&state.neighbours()).len(), 25);
}

#[test]
fn a_pop_on_the_empty_path_changes_nothing() {
    let mut state = PathState::new();
    state.pop();
    state.pop();
    assert!(state.path().is_empty());
    assert_eq!(members(&state.neighbours()).len(), 25);
    state.push(Tile::C2, Letter::X);
    assert_eq!(state.path().len(), 1);
}

#[test]
fn a_path_can_cover_the_whole_grid() {
    let mut state = PathState::new();
    for row in 0..5u8 {
        for k in 0..5u8 {
            let col = if row % 2 == 0 { k } else { 4 - k };
            let tile = Tile::index(row * 5 + col).unwrap();
            assert!(state.neighbours().contains(tile));
            state.push(tile, Letter::A);
        }
    }
    assert_eq!(state.path().len(), 25);
    assert_eq!(members(&state.neighbours()), Vec::<u8>::new());
    state.pop();
    assert_eq!(members(&state.neighbours()), vec![24]);
}

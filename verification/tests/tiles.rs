use wordgrid::tile::{Tile, TileSet, BOARD_HEIGHT, BOARD_WIDTH};

fn members(set: &TileSet) -> Vec<u8> {
    (0..25u8).filter(|&i| set.contains(Tile::index(i).unwrap())).collect()
}

#[test]
fn the_grid_is_five_by_five() {
    assert_eq!(BOARD_WIDTH, 5);
    assert_eq!(BOARD_HEIGHT, 5);
    assert_eq!(Tile::NUM, 25);
    assert_eq!(BOARD_WIDTH * BOARD_HEIGHT, Tile::NUM);
}

#[test]
fn tiles_are_numbered_row_by_row() {
    assert_eq!(Tile::index(0), Some(Tile::A0));
    assert_eq!(Tile::index(4), Some(Tile::E0));
    assert_eq!(Tile::index(5), Some(Tile::A1));
    assert_eq!(Tile::index(12), Some(Tile::C2));
    assert_eq!(Tile::index(24), Some(Tile::E4));
    assert_eq!(Tile::index(25), None);
    assert_eq!(Tile::index(255), None);
    for i in 0..25u8 {
        assert_eq!(Tile::index(i).unwrap().ordinal(), i);
    }
}

#[test]
fn tiles_by_column_and_row() {
    assert_eq!(Tile::new(0, 0), Some(Tile::A0));
    assert_eq!(Tile::new(4, 0), Some(Tile::E0));
    assert_eq!(Tile::new(0, 4), Some(Tile::A4));
    assert_eq!(Tile::new(2, 3), Some(Tile::C3));
    assert_eq!(Tile::new(4, 4), Some(Tile::E4));
    for y in 0..5i8 {
        for x in 0..5i8 {
            assert_eq!(Tile::new(x, y).unwrap().ordinal(), (y * 5 + x) as u8);
        }
    }
}

#[test]
fn cells_off_the_grid_are_no_tiles() {
    assert_eq!(Tile::new(-1, 0), None);
    assert_eq!(Tile::new(0, -1), None);
    assert_eq!(Tile::new(5, 0), None);
    assert_eq!(Tile::new(0, 5), None);
    assert_eq!(Tile::new(i8::MIN, 2), None);
    assert_eq!(Tile::new(2, i8::MAX), None);
    assert_eq!(Tile::new(i8::MAX, i8::MAX), None);
}

#[test]
fn a_corner_has_three_neighbours() {
    assert_eq!(members(&Tile::A0.neighbours()), vec![1, 5, 6]);
    assert_eq!(members(&Tile::E4.neighbours()), vec![18, 19, 23]);
    assert_eq!(members(&Tile::E0.neighbours()), vec![3, 8, 9]);
    assert_eq!(members(&Tile::A4.neighbours()), vec![15, 16, 21]);
}

#[test]
fn an_edge_tile_has_five_neighbours() {
    assert_eq!(members(&Tile::C0.neighbours()), vec![1, 3, 6, 7, 8]);
    assert_eq!(members(&Tile::A2.neighbours()), vec![5, 6, 11, 15, 16]);
}

#[test]
fn an_inner_tile_has_eight_neighbours() {
    assert_eq!(members(&Tile::C2.neighbours()), vec![6, 7, 8, 11, 13, 16, 17, 18]);
    assert_eq!(members(&Tile::B1.neighbours()), vec![0, 1, 2, 5, 7, 10, 11, 12]);
}

#[test]
fn neighbourhood_is_symmetric_and_irreflexive() {
    for a in 0..25u8 {
        let ta = Tile::index(a).unwrap();
        assert!(!ta.neighbours().contains(ta));
        for b in 0..25u8 {
            let tb = Tile::index(b).unwrap();
            assert_eq!(ta.neighbours().contains(tb), tb.neighbours().contains(ta));
            let near = a != b
                && ((a % 5) as i8 - (b % 5) as i8).abs() <= 1
                && ((a / 5) as i8 - (b / 5) as i8).abs() <= 1;
            assert_eq!(ta.neighbours().contains(tb), near);
        }
    }
}

#[test]
fn tile_sets_insert_remove_and_subtract() {
    let mut set = TileSet::empty();
    assert_eq!(members(&set), Vec::<u8>::new());
    set.insert(Tile::C2);
    set.insert(Tile::A0);
    set.insert(Tile::E4);
    set.insert(Tile::C2);
    assert_eq!(members(&set), vec![0, 12, 24]);
    set.remove(Tile::A0);
    set.remove(Tile::B0);
    assert_eq!(members(&set), vec![12, 24]);
    let all = TileSet::all();
    assert_eq!(members(&all).len(), 25);
    let rest = all.difference(set);
    assert_eq!(members(&rest).len(), 23);
    assert!(!rest.contains(Tile::C2));
    assert!(!rest.contains(Tile::E4));
    assert!(rest.contains(Tile::A0));
    let same = set.with(None).with(Some(Tile::D3));
    assert_eq!(members(&same), vec![12, 18, 24]);
    assert_eq!(members(&TileSet::empty().with_cell(5, 0)), Vec::<u8>::new());
    assert_eq!(members(&TileSet::empty().with_cell(1, 1)), vec![6]);
}

use iomrascalai::board::hash::ZobristHashTable as ColourTables;
use iomrascalai::board::Color::Black;
use iomrascalai::board::Color::Empty;
use iomrascalai::board::Color::White;
use iomrascalai::board::Move::Play;
use iomrascalai::game::hash::ZobristHashTable;

#[test]
fn adding_then_removing_a_stone_restores_the_hash() {
    let t = ZobristHashTable::new(9);
    assert_eq!(t.size(), 9);
    let h = t.init_hash();
    assert_eq!(h, 0);
    let m = Play(Black, 3, 4);
    let h1 = t.add_stone_to_hash(h, &m);
    assert_eq!(t.remove_stone_from_hash(h1, &m), h);
    let n = Play(White, 5, 5);
    let a = t.add_stone_to_hash(t.add_stone_to_hash(h, &m), &n);
    let b = t.add_stone_to_hash(t.add_stone_to_hash(h, &n), &m);
    assert_eq!(a, b);
}

#[test]
fn a_move_of_no_colour_does_not_change_the_hash() {
    let t = ZobristHashTable::new(5);
    assert_eq!(t.add_stone_to_hash(42, &Play(Empty, 2, 2)), 42);
    assert_eq!(t.hash_for(&Play(Empty, 2, 2)), 0);
    let k = t.hash_for(&Play(Black, 2, 2));
    assert_eq!(t.add_stone_to_hash(42, &Play(Black, 2, 2)), 42 ^ k);
}

#[test]
fn three_tables_toggle_the_empty_and_the_stone_key() {
    let t = ColourTables::new(9);
    assert_eq!(t.size(), 9);
    let h = t.init_hash();
    let m = Play(White, 9, 9);
    let h1 = t.add_stone_to_hash(h, &m);
    assert_eq!(t.remove_stone_from_hash(h1, &m), h);
    let e = Play(Empty, 9, 9);
    assert_eq!(t.add_stone_to_hash(h, &e), h);
}

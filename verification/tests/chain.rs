use iomrascalai::board::stone_chain::Chain as StoneChain;
use iomrascalai::board::Chain;
use iomrascalai::board::Color::Black;
use iomrascalai::board::Color::White;
use iomrascalai::board::Coord;

#[test]
fn test_show_returns_a_legible_string_for_the_chain() {
    let mut c = Chain::new(1, Black, Coord::new(7, 7), vec![Coord::new(1, 1)]);
    c.add_coord(Coord::new(7, 8));
    c.add_coord(Coord::new(7, 9));
    let expected = String::from("1  | Black, libs: HashSet {\"(1,1)\"}, stones: [\"(7,7)\", \"(7,8)\", \"(7,9)\"]");
    assert_eq!(c.show(), expected);
}

#[test]
fn add_stone_adds_a_stone() {
    let mut c1 = StoneChain::new(1, Black);
    c1.add_stone(Coord::new(14, 14));
    assert_eq!(c1.coords().len(), 1);
}

#[test]
fn add_stone_adds_the_correct_stone() {
    let mut c1 = StoneChain::new(1, Black);
    c1.add_stone(Coord::new(14, 14));
    assert_eq!(c1.coords().get(0), Some(&Coord::new(14, 14)));
}

#[test]
fn merge_adds_all_the_coords_of_the_merged_chain() {
    let mut c1 = StoneChain::new(1, Black);
    let mut c2 = StoneChain::new(2, Black);
    c2.add_stone(Coord::new(10, 10));
    c2.add_stone(Coord::new(10, 11));
    c2.add_stone(Coord::new(11, 10));
    c1.merge(&c2);
    assert_eq!(c1.coords().len(), 3);
    assert!(c1.coords().contains(&Coord::new(10, 10)));
    assert!(c1.coords().contains(&Coord::new(10, 11)));
    assert!(c1.coords().contains(&Coord::new(11, 10)));
}

#[test]
fn merge_doesnt_remove_the_previous_stones() {
    let mut c1 = StoneChain::new(1, Black);
    let mut c2 = StoneChain::new(2, Black);
    c2.add_stone(Coord::new(10, 10));
    c2.add_stone(Coord::new(10, 11));
    c1.merge(&c2);
    c1.add_stone(Coord::new(7, 7));
    c1.add_stone(Coord::new(7, 8));
    c1.add_stone(Coord::new(7, 9));
    assert!(c1.coords().contains(&Coord::new(7, 7)));
    assert!(c1.coords().contains(&Coord::new(7, 8)));
    assert!(c1.coords().contains(&Coord::new(7, 9)));
}

#[test]
fn chain_test_show_returns_a_legible_string_for_the_chain() {
    let mut c1 = StoneChain::new(1, Black);
    c1.add_stone(Coord::new(7, 7));
    c1.add_stone(Coord::new(7, 8));
    c1.add_stone(Coord::new(7, 9));
    let expected = String::from("1, Black: 7,7|7,8|7,9|");
    assert_eq!(c1.show(), expected);
}

#[test]
fn new_stone_chain_has_one_liberty() {
    let c = StoneChain::new(3, White);
    assert_eq!(c.libs, 1);
    assert_eq!(c.id, 3);
    assert_eq!(c.color, White);
    assert!(c.coords().is_empty());
    assert_eq!(c.show(), "3, White: ");
}

#[test]
fn chain_liberties_are_kept_once() {
    let mut c = Chain::new(2, White, Coord::new(3, 3), vec![Coord::new(3, 4), Coord::new(3, 4), Coord::new(4, 3)]);
    assert_eq!(c.liberties().len(), 2);
    assert!(!c.is_captured());
    c.remove_liberty(Coord::new(3, 4));
    c.remove_liberty(Coord::new(4, 3));
    assert!(c.is_captured());
    c.add_liberty(Coord::new(2, 3));
    c.add_liberty(Coord::new(2, 3));
    assert_eq!(c.liberties().len(), 1);
    assert_eq!(c.id(), 2);
    c.set_id(5);
    assert_eq!(c.id(), 5);
    assert_eq!(c.color(), White);
    assert_eq!(c.coords(), &vec![Coord::new(3, 3)]);
}

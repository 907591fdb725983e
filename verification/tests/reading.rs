use iomrascalai::board::Board;
use iomrascalai::board::Color::Black;
use iomrascalai::board::Color::White;
use iomrascalai::board::Coord;
use iomrascalai::board::Komi;
use iomrascalai::board::Move;
use iomrascalai::board::Move::Play;
use iomrascalai::ruleset::Ruleset::Minimal;

fn board_with(moves: &[Move]) -> Board {
    let mut b = Board::new(9, Komi(65), Minimal);
    for m in moves {
        b.play(*m).unwrap();
    }
    b
}

#[test]
fn an_atari_with_open_space_is_fixed_by_running() {
    let b = board_with(&[Play(White, 5, 5), Play(Black, 4, 5), Play(Black, 6, 5), Play(Black, 5, 4)]);
    let chain = b.get_chain(Coord::new(5, 5)).unwrap();
    assert_eq!(b.fix_atari(&chain), vec![Play(White, 5, 6)]);
    assert_eq!(b.save_group(&chain), vec![Play(White, 5, 6)]);
    assert_eq!(b.capture_ladder(&chain), Some(Play(Black, 5, 6)));
}

#[test]
fn an_atari_against_a_wall_cannot_be_fixed() {
    let b = board_with(&[Play(White, 1, 1), Play(Black, 2, 1), Play(Black, 2, 2)]);
    let chain = b.get_chain(Coord::new(1, 1)).unwrap();
    assert!(b.fix_atari(&chain).is_empty());
    assert!(b.save_group(&chain).is_empty());
    assert_eq!(b.capture_ladder(&chain), Some(Play(Black, 1, 2)));
}

#[test]
fn an_atari_is_fixed_first_by_capturing_a_neighbour_in_atari() {
    let b = board_with(&[Play(White, 1, 1), Play(Black, 2, 1), Play(White, 3, 1)]);
    let chain = b.get_chain(Coord::new(1, 1)).unwrap();
    let fixes = b.fix_atari(&chain);
    assert_eq!(fixes[0], Play(White, 2, 2));
    assert!(fixes.len() <= 2);
}

#[test]
fn two_liberties_on_the_edge_are_caught_in_a_ladder() {
    let b = board_with(&[Play(White, 1, 2), Play(Black, 2, 2), Play(Black, 2, 3)]);
    let chain = b.get_chain(Coord::new(1, 2)).unwrap();
    assert_eq!(chain.liberties().len(), 2);
    assert_eq!(b.capture_ladder(&chain), Some(Play(Black, 1, 3)));
    assert_eq!(b.escape_ladder(&chain), Some(Play(White, 1, 1)));
    assert_eq!(b.save_group(&chain), vec![Play(White, 1, 1)]);
}

#[test]
fn two_liberties_in_the_open_are_not_a_ladder() {
    let b = board_with(&[Play(White, 5, 5), Play(Black, 4, 5), Play(Black, 5, 4)]);
    let chain = b.get_chain(Coord::new(5, 5)).unwrap();
    assert_eq!(b.capture_ladder(&chain), None);
    assert_eq!(b.escape_ladder(&chain), Some(Play(White, 5, 6)));
}

#[test]
fn a_chain_with_many_liberties_needs_no_saving() {
    let b = board_with(&[Play(White, 5, 5)]);
    let chain = b.get_chain(Coord::new(5, 5)).unwrap();
    assert!(b.save_group(&chain).is_empty());
    assert_eq!(b.capture_ladder(&chain), None);
}

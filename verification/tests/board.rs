use iomrascalai::board::Board;
use iomrascalai::board::Color::Black;
use iomrascalai::board::Color::Empty;
use iomrascalai::board::Color::White;
use iomrascalai::board::Coord;
use iomrascalai::board::IllegalMove;
use iomrascalai::board::Komi;
use iomrascalai::board::Move::Pass;
use iomrascalai::board::Move::Play;
use iomrascalai::board::Move::Resign;
use iomrascalai::ruleset::Ruleset::AnySizeTrompTaylor;
use iomrascalai::ruleset::Ruleset::KgsChinese;
use iomrascalai::ruleset::Ruleset::Minimal;

fn komi() -> Komi {
    Komi(65)
}

#[test]
fn a_new_point_is_empty() {
    let b = Board::new(19, komi(), AnySizeTrompTaylor);
    assert_eq!(b.color(&Coord::new(10, 10)), Empty);
    assert_eq!(b.color(&Coord::new(19, 19)), Empty);
}

#[test]
fn play_places_one_stone() {
    let mut b = Board::new(19, komi(), AnySizeTrompTaylor);
    assert!(b.play(Play(Black, 14, 14)).is_ok());
    for i in 1u8..20 {
        for j in 1u8..20 {
            assert!(b.color(&Coord::new(i, j)) == Empty || (i == 14 && j == 14));
        }
    }
    assert_eq!(b.color(&Coord::new(14, 14)), Black);
}

#[test]
fn plays_off_the_board_or_on_stones_are_refused() {
    let mut b = Board::new(9, komi(), Minimal);
    assert_eq!(b.play(Play(Black, 13, 13)), Err(IllegalMove::PlayOutOfBoard));
    assert!(b.play(Play(Black, 4, 4)).is_ok());
    assert_eq!(b.play(Play(Black, 4, 4)), Err(IllegalMove::IntersectionNotEmpty));
    assert_eq!(b.play(Play(White, 4, 4)), Err(IllegalMove::IntersectionNotEmpty));
}

#[test]
fn resigning_ends_the_game_and_the_other_player_wins() {
    let mut b = Board::new(9, komi(), AnySizeTrompTaylor);
    b.play(Play(Black, 1, 1)).unwrap();
    b.play(Play(White, 2, 2)).unwrap();
    b.play(Resign(Black)).unwrap();
    assert!(b.is_game_over());
    assert_eq!(b.winner(), White);
    assert_eq!(b.play(Play(White, 1, 2)), Err(IllegalMove::GameAlreadyOver));
    assert!(b.legal_moves_without_superko_check().is_empty());
    assert!(b.legal_moves_without_eyes().is_empty());
}

#[test]
fn capture_in_the_corner_on_the_side_and_in_the_middle() {
    let mut b = Board::new(19, komi(), Minimal);
    b.play(Play(Black, 1, 1)).unwrap();
    b.play(Play(White, 1, 2)).unwrap();
    b.play(Play(White, 2, 1)).unwrap();
    assert_eq!(b.color(&Coord::new(1, 1)), Empty);
    assert_eq!(b.adv_stones_removed(), &vec![Coord::new(1, 1)]);

    b.play(Play(Black, 1, 5)).unwrap();
    b.play(Play(White, 1, 4)).unwrap();
    b.play(Play(White, 1, 6)).unwrap();
    b.play(Play(White, 2, 5)).unwrap();
    assert_eq!(b.color(&Coord::new(1, 5)), Empty);

    b.play(Play(Black, 10, 10)).unwrap();
    b.play(Play(Black, 10, 11)).unwrap();
    b.play(Play(White, 10, 9)).unwrap();
    b.play(Play(White, 9, 10)).unwrap();
    b.play(Play(White, 11, 10)).unwrap();
    b.play(Play(White, 9, 11)).unwrap();
    b.play(Play(White, 11, 11)).unwrap();
    b.play(Play(White, 10, 12)).unwrap();
    assert_eq!(b.color(&Coord::new(10, 10)), Empty);
    assert_eq!(b.color(&Coord::new(10, 11)), Empty);
    assert_eq!(b.color(&Coord::new(10, 12)), White);
    assert_eq!(b.adv_stones_removed().len(), 2);
}

fn surrounded_point() -> Board {
    let mut b = Board::new(19, komi(), AnySizeTrompTaylor);
    b.play(Play(Black, 4, 4)).unwrap();
    b.play(Play(White, 5, 4)).unwrap();
    b.play(Play(Black, 16, 16)).unwrap();
    b.play(Play(White, 4, 3)).unwrap();
    b.play(Play(Black, 16, 15)).unwrap();
    b.play(Play(White, 3, 3)).unwrap();
    b.play(Play(Black, 16, 14)).unwrap();
    b.play(Play(White, 2, 4)).unwrap();
    b.play(Play(Black, 16, 13)).unwrap();
    b.play(Play(White, 4, 5)).unwrap();
    b.play(Play(Black, 16, 12)).unwrap();
    b.play(Play(White, 3, 5)).unwrap();
    b
}

#[test]
fn suicide_is_legal_in_tromp_taylor_and_removes_the_chain() {
    let mut b = surrounded_point();
    assert!(b.play(Play(Black, 3, 4)).is_ok());
    assert_eq!(b.color(&Coord::new(3, 4)), Empty);
    assert_eq!(b.color(&Coord::new(4, 4)), Empty);
    assert_eq!(b.color(&Coord::new(5, 4)), White);
    assert_eq!(b.friend_stones_removed().len(), 2);
}

#[test]
fn suicide_is_illegal_in_kgs_chinese() {
    let mut b = Board::new(3, komi(), KgsChinese);
    b.play(Play(Black, 2, 2)).unwrap();
    b.play(Play(White, 1, 2)).unwrap();
    b.play(Play(Black, 2, 1)).unwrap();
    b.play(Play(White, 3, 2)).unwrap();
    b.play(Play(Black, 2, 3)).unwrap();
    b.play(Play(White, 3, 1)).unwrap();
    b.play(Pass(Black)).unwrap();
    b.play(Play(White, 1, 3)).unwrap();
    b.play(Pass(Black)).unwrap();
    assert_eq!(b.play(Play(White, 1, 1)), Err(IllegalMove::SuicidePlay));
}

#[test]
fn playing_twice_is_illegal_in_tromp_taylor() {
    let mut b = Board::new(19, komi(), AnySizeTrompTaylor);
    b.play(Play(Black, 10, 10)).unwrap();
    assert_eq!(b.play(Play(Black, 4, 4)), Err(IllegalMove::SamePlayerPlayedTwice));
}

#[test]
fn two_passes_end_the_game() {
    let mut b = Board::new(19, komi(), AnySizeTrompTaylor);
    b.play(Pass(Black)).unwrap();
    assert!(!b.is_game_over());
    b.play(Pass(White)).unwrap();
    assert!(b.is_game_over());
    assert_eq!(b.play(Play(Black, 4, 4)), Err(IllegalMove::GameAlreadyOver));
}

#[test]
fn capturing_two_groups_from_an_eye_captures() {
    let mut b = Board::new(5, komi(), AnySizeTrompTaylor);
    b.play(Play(Black, 2, 1)).unwrap();
    b.play(Play(White, 3, 1)).unwrap();
    b.play(Play(Black, 1, 2)).unwrap();
    b.play(Play(White, 2, 2)).unwrap();
    b.play(Play(Black, 5, 5)).unwrap();
    b.play(Play(White, 1, 3)).unwrap();
    b.play(Play(Black, 5, 4)).unwrap();
    b.play(Play(White, 1, 1)).unwrap();
    assert_eq!(b.color(&Coord::new(1, 1)), White);
    assert_eq!(b.color(&Coord::new(1, 2)), Empty);
    assert_eq!(b.color(&Coord::new(2, 1)), Empty);
    assert_eq!(b.color(&Coord::new(2, 2)), White);
}

#[test]
fn the_players_alternate() {
    let mut b = Board::new(5, komi(), AnySizeTrompTaylor);
    assert_eq!(b.next_player(), Black);
    let moves = b.legal_moves_without_superko_check();
    assert_eq!(moves.len(), 25);
    assert!(moves.iter().all(|m| m.color() == &Black));
    b.play(Play(Black, 1, 1)).unwrap();
    assert_eq!(b.next_player(), White);
    let moves = b.legal_moves_without_superko_check();
    assert_eq!(moves.len(), 24);
    assert!(moves.iter().all(|m| m.color() == &White));
    assert!(!moves.iter().any(|m| m == &Play(White, 1, 1)));
}

#[test]
fn ruleset_and_komi_are_kept() {
    let mut b = Board::new(1, komi(), Minimal);
    assert_eq!(b.ruleset(), Minimal);
    assert_eq!(b.komi(), Komi(65));
    b.set_komi(Komi(100));
    assert_eq!(b.komi(), Komi(100));
    assert_eq!(b.size(), 1);
}

#[test]
fn retaking_a_ko_at_once_is_refused() {
    let mut b = Board::new(19, komi(), AnySizeTrompTaylor);
    b.play(Play(Black, 4, 4)).unwrap();
    b.play(Play(White, 5, 4)).unwrap();
    b.play(Play(Black, 3, 3)).unwrap();
    b.play(Play(White, 4, 3)).unwrap();
    b.play(Play(Black, 3, 5)).unwrap();
    b.play(Play(White, 4, 5)).unwrap();
    b.play(Play(Black, 2, 4)).unwrap();
    b.play(Play(White, 3, 4)).unwrap();
    assert_eq!(b.color(&Coord::new(4, 4)), Empty);
    assert_eq!(b.play(Play(Black, 4, 4)), Err(IllegalMove::Ko));
}

#[test]
fn an_eye_is_recognised_and_left_out() {
    let mut b = Board::new(5, komi(), Minimal);
    for &(c, r) in &[(2u8, 3u8), (4, 3), (3, 2), (3, 4)] {
        b.play(Play(Black, c, r)).unwrap();
    }
    assert!(b.is_eye(&Coord::new(3, 3), Black));
    assert!(!b.is_eye(&Coord::new(3, 3), White));
    b.play(Play(White, 1, 1)).unwrap();
    let with_eyes = b.legal_moves_without_superko_check();
    let without = b.legal_moves_without_eyes();
    assert!(with_eyes.contains(&Play(Black, 3, 3)));
    assert!(!without.contains(&Play(Black, 3, 3)));
    assert!(without.iter().all(|m| with_eyes.contains(m)));
}

#[test]
fn vacant_points_are_counted() {
    let mut b = Board::new(3, komi(), Minimal);
    assert_eq!(b.vacant_point_count(), 9);
    b.play(Play(Black, 2, 2)).unwrap();
    assert_eq!(b.vacant_point_count(), 8);
    assert_eq!(b.vacant().len(), 8);
    assert!(!b.vacant().contains(&Coord::new(2, 2)));
    assert_eq!(b.vacant()[0], Coord::new(1, 1));
}

#[test]
fn area_scoring_and_winner() {
    let mut b = Board::new(5, Komi(65), Minimal);
    let moves = [
        Play(Black, 2, 1), Play(White, 3, 1), Play(Black, 2, 2), Play(White, 3, 2),
        Play(Black, 1, 3), Play(White, 2, 3), Play(Black, 5, 4), Play(White, 1, 4),
        Play(Black, 4, 4), Play(White, 5, 3), Play(Black, 4, 5), Play(White, 4, 3),
        Play(Black, 1, 2), Play(White, 3, 4), Pass(Black), Play(White, 3, 5),
        Pass(Black), Pass(White),
    ];
    for &m in moves.iter() {
        b.play(m).unwrap();
    }
    assert_eq!(b.score(), (9, 16));
    assert_eq!(b.winner(), White);
}

#[test]
fn liberties_and_captures_of_a_hypothetical_play() {
    let mut b = Board::new(9, komi(), Minimal);
    b.play(Play(White, 1, 1)).unwrap();
    b.play(Play(Black, 2, 1)).unwrap();
    assert_eq!(b.liberty_count(Coord::new(1, 2)), 2);
    assert_eq!(b.liberty_count(Coord::new(5, 5)), 4);
    let capture = Play(Black, 1, 2);
    assert_eq!(b.removes_enemy_neighbouring_stones(capture), 1);
    assert_eq!(b.removes_multiple_enemy_neighbouring_stones(capture), (true, false));
    assert_eq!(b.new_chain_length(Play(Black, 3, 1)), 2);
    assert_eq!(b.new_chain_liberties(Play(Black, 3, 1)), 3);
    assert!(b.new_chain_liberties_greater_than(Play(Black, 3, 1), 2));
    assert!(!b.new_chain_liberties_greater_than(Play(Black, 3, 1), 3));
    assert!(b.new_chain_length_less_than(Play(Black, 3, 1), 2));
    assert!(!b.new_chain_length_less_than(Play(Black, 3, 1), 1));
    assert!(b.new_chain_length_less_than(Play(Black, 7, 7), 0));
    assert!(b.is_not_self_atari(&capture));
    assert!(b.new_chain_liberties_greater_than_zero(capture));
    assert!(b.new_chain_liberties_greater_than_one(capture));
}

#[test]
fn a_play_into_atari_is_recognised() {
    let mut b = Board::new(9, komi(), Minimal);
    b.play(Play(White, 2, 1)).unwrap();
    b.play(Play(White, 1, 2)).unwrap();
    b.play(Play(White, 3, 2)).unwrap();
    let m = Play(Black, 2, 2);
    assert!(!b.is_not_self_atari(&m));
    assert!(b.is_not_self_atari(&Play(Black, 5, 5)));
}

#[test]
fn the_board_is_drawn_top_row_first() {
    let mut b = Board::new(3, komi(), Minimal);
    b.play(Play(Black, 1, 1)).unwrap();
    b.play(Play(White, 3, 3)).unwrap();
    assert_eq!(b.as_string(), " 3 . . O \n 2 . . . \n 1 X . . \n");
    let big = Board::new(19, komi(), Minimal);
    let text = big.as_string();
    assert!(text.starts_with("19 . . ."));
    assert!(text.contains(" 4 . . . + . . . . . + . . . . . + . . . \n"));
}

#[test]
fn a_clone_is_equal() {
    let mut b = Board::new(5, komi(), Minimal);
    b.play(Play(Black, 3, 3)).unwrap();
    let c = b.clone();
    assert_eq!(c.color(&Coord::new(3, 3)), Black);
    assert_eq!(c.next_player(), White);
    assert_eq!(c.neighbours(Coord::new(1, 1)).len(), 2);
    assert_eq!(c.diagonals(Coord::new(3, 3)).len(), 4);
}

#[test]
fn two_way_merging_works() {
    let mut b = Board::new(19, komi(), Minimal);
    b.play(Play(White, 10, 10)).unwrap();
    b.play(Play(White, 10, 12)).unwrap();
    assert_eq!(b.chains().len(), 2);
    b.play(Play(White, 10, 11)).unwrap();
    let c_id = b.get_chain(Coord::new(10, 10)).unwrap().id();
    assert_eq!(b.get_chain(Coord::new(10, 11)).unwrap().id(), c_id);
    assert_eq!(b.get_chain(Coord::new(10, 12)).unwrap().id(), c_id);
    assert_eq!(b.chains().len(), 1);
}

#[test]
fn three_way_merging_works() {
    let mut b = Board::new(19, komi(), Minimal);
    b.play(Play(White, 10, 10)).unwrap();
    b.play(Play(White, 11, 11)).unwrap();
    b.play(Play(White, 10, 12)).unwrap();
    assert_eq!(b.chains().len(), 3);
    b.play(Play(White, 10, 11)).unwrap();
    let c_id = b.get_chain(Coord::new(10, 10)).unwrap().id();
    assert_eq!(b.get_chain(Coord::new(10, 11)).unwrap().id(), c_id);
    assert_eq!(b.get_chain(Coord::new(11, 11)).unwrap().id(), c_id);
    assert_eq!(b.get_chain(Coord::new(10, 12)).unwrap().id(), c_id);
    assert_eq!(b.chains().len(), 1);
}

#[test]
fn four_way_merging_works() {
    let mut b = Board::new(19, komi(), Minimal);
    b.play(Play(White, 10, 10)).unwrap();
    b.play(Play(White, 9, 11)).unwrap();
    b.play(Play(White, 11, 11)).unwrap();
    b.play(Play(White, 10, 12)).unwrap();
    assert_eq!(b.chains().len(), 4);
    b.play(Play(White, 10, 11)).unwrap();
    let c_id = b.get_chain(Coord::new(10, 10)).unwrap().id();
    assert_eq!(b.get_chain(Coord::new(10, 11)).unwrap().id(), c_id);
    assert_eq!(b.get_chain(Coord::new(9, 11)).unwrap().id(), c_id);
    assert_eq!(b.get_chain(Coord::new(11, 11)).unwrap().id(), c_id);
    assert_eq!(b.get_chain(Coord::new(10, 12)).unwrap().id(), c_id);
    assert_eq!(b.chains().len(), 1);
}

#[test]
fn chains_are_numbered_column_by_column() {
    let mut b = Board::new(5, komi(), Minimal);
    b.play(Play(Black, 3, 3)).unwrap();
    b.play(Play(White, 1, 5)).unwrap();
    b.play(Play(Black, 3, 4)).unwrap();
    let chains = b.chains();
    assert_eq!(chains.len(), 2);
    assert_eq!(chains[0].id(), 0);
    assert_eq!(chains[0].color(), White);
    assert_eq!(chains[0].coords(), &vec![Coord::new(1, 5)]);
    assert_eq!(chains[0].liberties(), &vec![Coord::new(1, 4), Coord::new(2, 5)]);
    assert_eq!(chains[1].color(), Black);
    assert_eq!(chains[1].coords(), &vec![Coord::new(3, 3), Coord::new(3, 4)]);
    assert_eq!(chains[1].liberties().len(), 6);
    assert_eq!(b.chain_id(&Coord::new(3, 4)), 1);
    assert!(b.get_chain(Coord::new(2, 2)).is_none());
}

#[test]
fn a_pass_keeps_the_stones() {
    let mut b = Board::new(5, komi(), Minimal);
    b.play(Play(Black, 2, 2)).unwrap();
    let before = b.as_string();
    b.play(Pass(White)).unwrap();
    assert_eq!(b.as_string(), before);
    assert_eq!(b.consecutive_passes(), 1);
}

#[test]
fn captured_stones_are_listed_once() {
    let mut b = Board::new(5, komi(), Minimal);
    b.play(Play(Black, 1, 1)).unwrap();
    b.play(Play(Black, 1, 2)).unwrap();
    b.play(Play(Black, 2, 3)).unwrap();
    b.play(Play(White, 1, 3)).unwrap();
    b.play(Play(White, 2, 1)).unwrap();
    b.play(Play(White, 2, 2)).unwrap();
    let removed = b.adv_stones_removed().clone();
    assert_eq!(removed, vec![Coord::new(1, 1), Coord::new(1, 2)]);
    assert!(b.friend_stones_removed().is_empty());
}

#[test]
fn chinese_rules_never_remove_own_stones() {
    let mut b = Board::new(5, komi(), KgsChinese);
    b.play(Play(Black, 1, 2)).unwrap();
    b.play(Play(White, 3, 3)).unwrap();
    b.play(Play(Black, 2, 1)).unwrap();
    assert_eq!(b.play(Play(White, 1, 1)), Err(IllegalMove::SuicidePlay));
    assert!(b.friend_stones_removed().is_empty());
}

#[test]
fn a_play_of_no_colour_is_answered_and_changes_no_point() {
    let mut b = Board::new(9, komi(), KgsChinese);
    assert_eq!(b.is_legal(Play(Empty, 3, 3)), Ok(()));
    assert_eq!(b.is_legal(Play(Empty, 30, 3)), Err(IllegalMove::PlayOutOfBoard));
    assert!(b.play(Play(Black, 4, 4)).is_ok());
    assert_eq!(b.is_legal(Play(Empty, 4, 4)), Err(IllegalMove::IntersectionNotEmpty));
    assert!(b.play(Play(Empty, 3, 3)).is_ok());
    assert_eq!(b.color(&Coord::new(3, 3)), Empty);
    assert_eq!(b.vacant_point_count(), 80);
    assert_eq!(b.next_player(), Empty);
    assert_eq!(b.is_legal(Play(Empty, 5, 5)), Err(IllegalMove::SamePlayerPlayedTwice));
}

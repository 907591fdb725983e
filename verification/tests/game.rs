use iomrascalai::board::Color::Black;
use iomrascalai::board::Color::White;
use iomrascalai::board::Coord;
use iomrascalai::board::IllegalMove;
use iomrascalai::board::Komi;
use iomrascalai::board::Move::Pass;
use iomrascalai::board::Move::Play;
use iomrascalai::board::Move::Resign;
use iomrascalai::board::Board;
use iomrascalai::game::zobrist_hash_table::ZobristHashTable;
use iomrascalai::game::Game;
use iomrascalai::game::Info;
use iomrascalai::ruleset::Ruleset::AnySizeTrompTaylor;
use iomrascalai::ruleset::Ruleset::KgsChinese;
use iomrascalai::ruleset::Ruleset::Minimal;

#[test]
fn replaying_directly_on_a_ko_point_should_be_illegal() {
    let mut g = Game::new(19, Komi(65), AnySizeTrompTaylor);
    g = g.play(Play(Black, 4, 4)).unwrap();
    g = g.play(Play(White, 5, 4)).unwrap();
    g = g.play(Play(Black, 3, 3)).unwrap();
    g = g.play(Play(White, 4, 3)).unwrap();
    g = g.play(Play(Black, 3, 5)).unwrap();
    g = g.play(Play(White, 4, 5)).unwrap();
    g = g.play(Play(Black, 2, 4)).unwrap();
    g = g.play(Play(White, 3, 4)).unwrap();
    let ko = g.play(Play(Black, 4, 4));
    assert!(ko.is_err());
    assert_eq!(ko.err(), Some(IllegalMove::Ko));
}

#[test]
fn a_suicide_that_repeats_the_position_is_a_superko() {
    let mut g = Game::new(5, Komi(65), AnySizeTrompTaylor);
    g = g.play(Play(Black, 5, 5)).unwrap();
    g = g.play(Play(White, 1, 2)).unwrap();
    g = g.play(Play(Black, 5, 4)).unwrap();
    g = g.play(Play(White, 2, 1)).unwrap();
    let board = g.board();
    let mut copy = board.clone();
    assert!(copy.play(Play(Black, 1, 1)).is_ok());
    assert_eq!(g.play(Play(Black, 1, 1)).err(), Some(IllegalMove::SuperKo));
}

#[test]
fn catch_suicide_moves_in_chinese() {
    let mut g = Game::new(3, Komi(65), KgsChinese);
    g = g.play(Play(Black, 2, 2)).unwrap();
    g = g.play(Play(White, 1, 2)).unwrap();
    g = g.play(Play(Black, 2, 1)).unwrap();
    g = g.play(Play(White, 3, 2)).unwrap();
    g = g.play(Play(Black, 2, 3)).unwrap();
    g = g.play(Play(White, 3, 1)).unwrap();
    g = g.play(Pass(Black)).unwrap();
    g = g.play(Play(White, 1, 3)).unwrap();
    g = g.play(Pass(Black)).unwrap();
    match g.play(Play(White, 1, 1)) {
        Err(e) => assert_eq!(e, IllegalMove::SuicidePlay),
        Ok(_) => panic!("Expected Err!"),
    }
}

#[test]
fn it_should_handle_resign() {
    let g = Game::new(9, Komi(65), KgsChinese);
    let res = g.play(Resign(Black));
    assert!(res.is_ok());
    let g = res.ok().unwrap();
    assert!(g.is_over());
    assert_eq!(g.winner(), White);
    assert_eq!(g.last_move(), Some(Resign(Black)));
}

#[test]
fn game_score_should_include_komi() {
    let mut g = Game::new(5, Komi(65), Minimal);
    let moves = [
        Play(Black, 2, 1), Play(White, 3, 1), Play(Black, 2, 2), Play(White, 3, 2),
        Play(Black, 1, 3), Play(White, 2, 3), Play(Black, 5, 4), Play(White, 1, 4),
        Play(Black, 4, 4), Play(White, 5, 3), Play(Black, 4, 5), Play(White, 4, 3),
        Play(Black, 1, 2), Play(White, 3, 4), Pass(Black), Play(White, 3, 5),
        Pass(Black), Pass(White),
    ];
    for &m in moves.iter() {
        g = g.play(m).ok().unwrap();
    }
    assert_eq!(g.board().score(), (9, 16));
    assert_eq!(g.winner(), White);
    assert!(g.is_over());
}

#[test]
fn a_game_reports_its_settings() {
    let mut g = Game::new(9, Komi(65), KgsChinese);
    assert_eq!(g.size(), 9);
    assert_eq!(g.komi(), Komi(65));
    assert_eq!(g.ruleset(), KgsChinese);
    assert_eq!(g.next_player(), Black);
    assert_eq!(g.last_move(), None);
    assert_eq!(g.vacant_point_count(), 81);
    g.set_komi(Komi(75));
    assert_eq!(g.komi(), Komi(75));
    let g = g.play(Play(Black, 3, 3)).ok().unwrap();
    assert_eq!(g.vacant_point_count(), 80);
    assert_eq!(g.next_player(), White);
    assert_eq!(g.board().color(&Coord::new(3, 3)), Black);
}

#[test]
fn the_game_leaves_out_eyes_and_refused_moves() {
    let mut g = Game::new(5, Komi(65), Minimal);
    for &(c, r) in &[(2u8, 3u8), (4, 3), (3, 2), (3, 4)] {
        g = g.play(Play(Black, c, r)).ok().unwrap();
    }
    g = g.play(Play(White, 1, 1)).ok().unwrap();
    let moves = g.legal_moves_without_eyes();
    assert!(!moves.contains(&Play(Black, 3, 3)));
    assert_eq!(moves.len(), 25 - 5 - 1);
    assert!(moves.iter().all(|&m| g.play(m).is_ok()));
}

#[test]
fn a_game_can_be_put_together_from_its_state() {
    let board = Board::new(9, Komi(65), Minimal);
    let table = ZobristHashTable::new(9);
    let g = Game::with_new_state(board, table, Some(Pass(White)));
    assert_eq!(g.last_move(), Some(Pass(White)));
    assert_eq!(g.size(), 9);
    assert_eq!(g.komi(), Komi(65));
    assert_eq!(g.board().vacant_point_count(), 81);
    let g = g.play(Play(Black, 3, 3)).unwrap();
    assert_eq!(g.last_move(), Some(Play(Black, 3, 3)));
}

#[test]
fn the_game_refuses_a_play_of_no_colour_as_a_repetition() {
    let g = Game::new(9, Komi(65), KgsChinese);
    match g.play(Play(iomrascalai::board::Color::Empty, 3, 3)) {
        Err(e) => assert_eq!(e, IllegalMove::SuperKo),
        Ok(_) => panic!("a play of no colour repeats the position"),
    }
}

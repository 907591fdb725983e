use iomrascalai::board::Board;
use iomrascalai::board::Color::Black;
use iomrascalai::board::Color::White;
use iomrascalai::board::Komi;
use iomrascalai::board::Move::Pass;
use iomrascalai::board::Move::Play;
use iomrascalai::config::UctPriorsConfig;
use iomrascalai::engine::prior::Prior;
use iomrascalai::engine::random::pick_move;
use iomrascalai::engine::mc::finish;
use iomrascalai::engine::AmafEngine;
use iomrascalai::engine::MoveStats;
use iomrascalai::board::Move::Resign;
use iomrascalai::engine::RandomEngine;
use iomrascalai::game::Game;
use iomrascalai::ruleset::Ruleset::Minimal;

fn priors(use_empty: bool) -> UctPriorsConfig {
    UctPriorsConfig {
        capture_many: 30,
        capture_one: 15,
        empty: 10,
        neutral_plays: 10,
        neutral_wins: 5,
        self_atari: 7,
        use_empty,
    }
}

#[test]
fn picking_a_move_uses_the_number_modulo_the_count() {
    let moves = vec![Play(Black, 1, 1), Play(Black, 2, 2), Play(Black, 3, 3)];
    assert_eq!(pick_move(&moves, 7, Black), Play(Black, 2, 2));
    assert_eq!(pick_move(&vec![], 7, White), Pass(White));
}

#[test]
fn the_random_engine_plays_an_allowed_move() {
    let g = Game::new(5, Komi(65), Minimal);
    let engine = RandomEngine::new();
    let m = engine.gen_move(Black, &g);
    assert!(g.legal_moves_without_eyes().contains(&m));
    let _ = AmafEngine::new();
}

#[test]
fn a_self_atari_gets_a_negative_prior() {
    let mut b = Board::new(9, Komi(65), Minimal);
    b.play(Play(White, 2, 1)).unwrap();
    b.play(Play(White, 1, 2)).unwrap();
    b.play(Play(White, 3, 2)).unwrap();
    let p = Prior::new(&b, &Play(Black, 2, 2), &priors(false));
    assert_eq!((p.plays(), p.wins()), (7, 0));
    let q = Prior::new(&b, &Play(Black, 6, 6), &priors(false));
    assert_eq!((q.plays(), q.wins()), (0, 0));
    let pass = Prior::new(&b, &Pass(Black), &priors(true));
    assert_eq!((pass.plays(), pass.wins()), (0, 0));
}

#[test]
fn the_empty_area_prior_depends_on_the_line() {
    let b = Board::new(19, Komi(65), Minimal);
    let first = Prior::new(&b, &Play(Black, 1, 10), &priors(true));
    assert_eq!((first.plays(), first.wins()), (10, 0));
    let third = Prior::new(&b, &Play(Black, 3, 10), &priors(true));
    assert_eq!((third.plays(), third.wins()), (10, 10));
    let center = Prior::new(&b, &Play(Black, 10, 10), &priors(true));
    assert_eq!((center.plays(), center.wins()), (0, 0));
}

#[test]
fn a_search_of_only_losses_passes_when_winning_and_resigns_otherwise() {
    let g = Game::new(9, Komi(65), Minimal);
    let moves = vec![Play(White, 1, 1), Play(White, 2, 2)];
    let mut stats = MoveStats::new(&moves, White);
    stats.record_loss(Play(White, 1, 1));
    assert_eq!(finish(White, &g, &stats), Pass(White));
    let mut stats = MoveStats::new(&vec![Play(Black, 1, 1)], Black);
    stats.record_loss(Play(Black, 1, 1));
    assert_eq!(finish(Black, &g, &stats), Resign(Black));
}

#[test]
fn a_search_with_a_win_returns_the_best_move() {
    let g = Game::new(9, Komi(65), Minimal);
    let moves = vec![Play(Black, 1, 1), Play(Black, 2, 2)];
    let mut stats = MoveStats::new(&moves, Black);
    stats.record_win(Play(Black, 1, 1));
    stats.record_loss(Play(Black, 1, 1));
    stats.record_win(Play(Black, 2, 2));
    assert_eq!(finish(Black, &g, &stats), Play(Black, 2, 2));
}

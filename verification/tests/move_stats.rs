use iomrascalai::board::Color::Black;
use iomrascalai::board::Color::White;
use iomrascalai::board::Move::Pass;
use iomrascalai::board::Move::Play;
use iomrascalai::engine::MoveStat;
use iomrascalai::engine::MoveStats;

#[test]
fn returns_pass_as_best_move_by_default() {
    let moves = vec![];
    let stats = MoveStats::new(&moves, Black);
    let (m, _) = stats.best();
    assert_eq!(Pass(Black), m);
}

#[test]
fn returns_the_best_move() {
    let moves = vec![Play(Black, 1, 1), Play(Black, 2, 2)];
    let mut stats = MoveStats::new(&moves, Black);
    stats.record_win(Play(Black, 1, 1));
    stats.record_loss(Play(Black, 1, 1));
    stats.record_win(Play(Black, 2, 2));
    stats.record_win(Play(Black, 2, 2));
    let (m, ms) = stats.best();
    assert_eq!(Play(Black, 2, 2), m);
    assert_eq!(ms.plays, 2);
    assert_eq!(ms.wins, 2);
}

#[test]
fn all_wins_returns_true_when_no_losses_were_recorded() {
    let moves = vec![Play(Black, 1, 1), Play(Black, 2, 2)];
    let mut stats = MoveStats::new(&moves, Black);
    stats.record_win(Play(Black, 1, 1));
    stats.record_win(Play(Black, 2, 2));
    assert!(stats.all_wins());
}

#[test]
fn all_wins_returns_false_when_a_loss_was_recorded() {
    let moves = vec![Play(Black, 1, 1), Play(Black, 2, 2)];
    let mut stats = MoveStats::new(&moves, Black);
    stats.record_loss(Play(Black, 1, 1));
    assert!(!stats.all_wins());
}

#[test]
fn all_losses_returns_true_when_no_wins_were_recorded() {
    let moves = vec![Play(Black, 1, 1), Play(Black, 2, 2)];
    let mut stats = MoveStats::new(&moves, Black);
    stats.record_loss(Play(Black, 1, 1));
    stats.record_loss(Play(Black, 2, 2));
    assert!(stats.all_losses());
}

#[test]
fn all_losses_returns_false_when_a_win_was_recorded() {
    let moves = vec![Play(Black, 1, 1), Play(Black, 2, 2)];
    let mut stats = MoveStats::new(&moves, Black);
    stats.record_win(Play(Black, 1, 1));
    assert!(!stats.all_losses());
}

#[test]
fn record_win_does_nothing_for_untracked_moves() {
    let moves = vec![];
    let mut stats = MoveStats::new(&moves, Black);
    stats.record_win(Play(Black, 1, 1));
}

#[test]
fn record_loss_does_nothing_for_untracked_moves() {
    let moves = vec![];
    let mut stats = MoveStats::new(&moves, Black);
    stats.record_loss(Play(Black, 1, 1));
}

#[test]
fn merge_merges_stats_existing_in_both() {
    let m = Play(Black, 1, 1);
    let moves = vec![m];
    let mut stats = MoveStats::new(&moves, Black);
    stats.record_win(m);
    let mut other = MoveStats::new(&moves, Black);
    other.record_loss(m);
    stats.merge(&other);
    let ms = stats.get(&m).unwrap();
    assert_eq!(ms.wins, 1);
    assert_eq!(ms.plays, 2);
}

#[test]
fn merge_ignores_stats_that_only_exist_in_other() {
    let m = Play(Black, 1, 1);
    let moves = vec![];
    let mut stats = MoveStats::new(&moves, Black);
    let moves2 = vec![m];
    let mut other = MoveStats::new(&moves2, Black);
    other.record_loss(m);
    stats.merge(&other);
    assert!(!stats.get(&m).is_some());
}

#[test]
fn merge_adds_the_plays_and_wins_of_other() {
    let mut ms = MoveStat::new();
    let mut other = MoveStat::new();
    ms.wins = 1;
    ms.plays = 1;
    other.wins = 1;
    other.plays = 2;
    ms.merge(&other);
    assert_eq!(2, ms.wins);
    assert_eq!(3, ms.plays);
}

#[test]
fn best_prefers_the_higher_ratio_over_more_wins() {
    let a = Play(White, 1, 1);
    let b = Play(White, 3, 3);
    let mut stats = MoveStats::new(&vec![a, b], White);
    stats.record_win(a);
    stats.record_win(a);
    stats.record_loss(a);
    stats.record_win(b);
    let (m, ms) = stats.best();
    assert_eq!(m, b);
    assert_eq!((ms.wins, ms.plays), (1, 1));
}

#[test]
fn repeated_moves_are_tracked_once() {
    let a = Play(Black, 2, 2);
    let mut stats = MoveStats::new(&vec![a, a], Black);
    stats.record_win(a);
    let ms = stats.get(&a).unwrap();
    assert_eq!((ms.wins, ms.plays), (1, 1));
}

#[test]
fn move_stat_counts_plays() {
    let mut ms = MoveStat::new();
    assert!(ms.all_wins());
    assert!(ms.all_losses());
    ms.won();
    ms.lost();
    assert_eq!((ms.wins, ms.plays), (1, 2));
    assert!(!ms.all_wins());
    assert!(!ms.all_losses());
    let mut other = MoveStat::new();
    other.won();
    assert!(other.beats(&ms));
    assert!(!ms.beats(&other));
}

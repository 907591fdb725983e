use iomrascalai::board::Color;
use iomrascalai::board::Komi;
use iomrascalai::ruleset::Ruleset;
use iomrascalai::score::Score;

#[test]
fn draw() {
    let score = Score::new((5, 5), Komi(0));
    assert_eq!("0", score.as_string());
    assert_eq!(score.color(), Color::Empty);
}

#[test]
fn white_win() {
    let score = Score::new((5, 5), Komi(65));
    assert_eq!("W+6.5", score.as_string());
    assert_eq!(score.color(), Color::White);
}

#[test]
fn black_win() {
    let score = Score::new((10, 5), Komi(10));
    assert_eq!("B+4", score.as_string());
    assert_eq!(score.color(), Color::Black);
}

#[test]
fn rulesets_differ_on_suicide_and_order() {
    assert!(Ruleset::AnySizeTrompTaylor.suicide_allowed());
    assert!(!Ruleset::KgsChinese.suicide_allowed());
    assert!(Ruleset::Minimal.same_player());
    assert!(!Ruleset::CGOS.same_player());
    assert!(Ruleset::Minimal.game_over_play());
    assert!(!Ruleset::KgsChinese.game_over_play());
}

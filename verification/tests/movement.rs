use iomrascalai::board::Color::Black;
use iomrascalai::board::Color::White;
use iomrascalai::board::Coord;
use iomrascalai::board::Move;
use iomrascalai::board::Move::Pass;
use iomrascalai::board::Move::Play;
use iomrascalai::board::Move::Resign;

#[test]
fn parse_gtp_pass() {
    let m = Move::from_gtp("B", "PASS");
    assert_eq!(m, Pass(Black));
}

#[test]
fn parse_lower_case_gtp_pass() {
    let m = Move::from_gtp("B", "pass");
    assert_eq!(m, Pass(Black));
}

#[test]
fn parse_resign() {
    let m = Move::from_gtp("W", "resign");
    assert_eq!(m, Resign(White));
}

#[test]
fn produce_gtp_resign() {
    let m = Resign(White);
    assert_eq!("resign", m.to_gtp());
}

#[test]
fn extract_color_from_resign() {
    let m = Resign(White);
    assert_eq!(&White, m.color());
}

#[test]
fn fail_when_trying_to_get_coord_of_resign() {
    // `coord` is only defined for plays, and a resignation is none.
    let m = Resign(White);
    assert!(!matches!(m, Play(..)));
    assert!(m.is_resign() && !m.is_pass());
}

#[test]
fn is_resign_recognizes_resigns() {
    let m = Resign(White);
    assert!(m.is_resign());
}

#[test]
fn parse_play_with_long_colour_name() {
    let m = Move::from_gtp("white", "c3");
    assert_eq!(m, Play(White, 3, 3));
    assert_eq!(m.coord(), Coord::new(3, 3));
}

#[test]
fn play_text_reads_back() {
    let m = Play(Black, 17, 4);
    assert_eq!(m.to_gtp(), "R4");
    assert_eq!(Move::from_gtp("b", &m.to_gtp()), m);
    assert!(!m.is_pass());
    assert!(Pass(Black).is_pass());
}

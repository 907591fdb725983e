use iomrascalai::board::Color::Black;
use iomrascalai::board::Color::White;
use iomrascalai::board::Coord;
use iomrascalai::board::Komi;
use iomrascalai::gtp::parse;
use iomrascalai::gtp::parse_u8_text;
use iomrascalai::gtp::preprocess;
use iomrascalai::gtp::GTPInterpreter;
use iomrascalai::gtp::IntErrorKind;
use iomrascalai::gtp::Outcome;
use iomrascalai::ruleset::Ruleset::KgsChinese;
use iomrascalai::ruleset::Ruleset::CGOS;

fn reply(i: &mut GTPInterpreter, line: &str) -> Result<String, String> {
    match i.read(line) {
        Outcome::Reply(r) => r,
        Outcome::Delegate(name, _) => Err(format!("delegated {}", name)),
    }
}

#[test]
fn lines_are_cleaned_before_reading() {
    assert_eq!(preprocess("  play\tb c3 # a comment\n"), "play b c3");
    assert_eq!(preprocess("\u{7}name\r\n"), "name");
    assert_eq!(preprocess("# only a comment"), "");
}

#[test]
fn empty_and_unknown_commands_are_errors() {
    assert_eq!(parse("   \n"), Err("empty command".to_string()));
    assert_eq!(parse("fly away\n"), Err("unknown command".to_string()));
    let (name, args) = parse("play b c3\n").unwrap();
    assert_eq!(name, "play");
    assert_eq!(args, vec!["b".to_string(), "c3".to_string()]);
}

#[test]
fn bytes_read_with_the_reason_of_a_failure() {
    assert_eq!(parse_u8_text("19"), Ok(19));
    assert_eq!(parse_u8_text(""), Err(IntErrorKind::Empty));
    assert_eq!(parse_u8_text("+"), Err(IntErrorKind::InvalidDigit));
    assert_eq!(parse_u8_text("1x9"), Err(IntErrorKind::InvalidDigit));
    assert_eq!(parse_u8_text("300x"), Err(IntErrorKind::PosOverflow));
}

#[test]
fn the_simple_commands_answer() {
    let mut i = GTPInterpreter::new(KgsChinese);
    assert_eq!(reply(&mut i, "name\n"), Ok("Iomrascalai".to_string()));
    assert_eq!(reply(&mut i, "protocol_version\n"), Ok("2".to_string()));
    assert_eq!(reply(&mut i, "known_command play\n"), Ok("true".to_string()));
    assert_eq!(reply(&mut i, "known_command fly\n"), Ok("false".to_string()));
    assert_eq!(reply(&mut i, "known_command\n"), Err("missing argument".to_string()));
}

#[test]
fn list_commands_has_no_newline_at_end() {
    let mut i = GTPInterpreter::new(CGOS);
    let expected = "boardsize\nclear_board\nfinal_score\nfinal_status_list\ngenmove\ngogui-analyze_commands\nimrscl-ownership\nkgs-genmove_cleanup\nknown_command\nkomi\nlist_commands\nloadsgf\nname\nplay\nprotocol_version\nquit\nreg_genmove\nshowboard\ntime_left\ntime_settings\nversion";
    assert_eq!(reply(&mut i, "list_commands\n"), Ok(expected.to_string()));
}

#[test]
fn gogui_analyze_commands_returns_the_supported_analyze_commands() {
    let mut i = GTPInterpreter::new(CGOS);
    let expected = "dboard/Ownership/imrscl-ownership\nplist/Final Status List Dead/final_status_list dead\nplist/Final Status List Alive/final_status_list alive";
    assert_eq!(reply(&mut i, "gogui-analyze_commands\n"), Ok(expected.to_string()));
}

#[test]
fn showboard_returns_a_board_representation() {
    let mut i = GTPInterpreter::new(CGOS);
    reply(&mut i, "boardsize 3\n").unwrap();
    let expected = "\nkomi: 6.5\n 3 . . . \n 2 . . . \n 1 . . . \n   1 2 3 \n";
    assert_eq!(reply(&mut i, "showboard\n"), Ok(expected.to_string()));
}

#[test]
fn showboard_prints_a_whole_komi_without_a_fraction() {
    let mut i = GTPInterpreter::new(CGOS);
    reply(&mut i, "boardsize 2\n").unwrap();
    i.set_komi(Komi(-70));
    reply(&mut i, "play b a1\n").unwrap();
    assert_eq!(reply(&mut i, "showboard\n"), Ok("\nkomi: -7\n 2 . . \n 1 X . \n   1 2 \n".to_string()));
}

#[test]
fn a_new_interpreter_starts_with_its_time_settings() {
    let i = GTPInterpreter::new(CGOS);
    assert_eq!(i.ruleset(), CGOS);
    assert!(i.is_running());
    assert_eq!(i.boardsize(), 19);
    assert_eq!(i.komi(), Komi(65));
    assert_eq!(i.main_time(), 5);
    assert_eq!(i.byo_time(), 0);
    assert_eq!(i.byo_stones(), 0);
    assert_eq!(i.game().board().vacant_point_count(), 361);
}

#[test]
fn time_settings_are_kept() {
    let mut i = GTPInterpreter::new(CGOS);
    assert_eq!(reply(&mut i, "time_settings 100 30 -5\n"), Ok(String::new()));
    assert_eq!(i.main_time(), 100);
    assert_eq!(i.byo_time(), 30);
    assert_eq!(i.byo_stones(), -5);
    assert_eq!(reply(&mut i, "time_settings 100 30\n"), Err("missing argument(s)".to_string()));
    assert_eq!(reply(&mut i, "time_settings 1 2 x\n"), Err("error parsing time_settings".to_string()));
    assert_eq!(reply(&mut i, "time_settings 1 2 3000000000\n"), Err("error parsing time_settings".to_string()));
    assert_eq!(i.main_time(), 100);
    assert_eq!(i.byo_stones(), -5);
}

#[test]
fn time_left_is_checked_and_acknowledged() {
    let mut i = GTPInterpreter::new(CGOS);
    assert_eq!(reply(&mut i, "time_left b 120 0\n"), Ok(String::new()));
    assert_eq!(reply(&mut i, "time_left b 120\n"), Err("missing argument(s)".to_string()));
    assert_eq!(reply(&mut i, "time_left b +x 0\n"), Err("error parsing time_left".to_string()));
}

#[test]
fn final_score_with_no_move() {
    let mut i = GTPInterpreter::new(CGOS);
    reply(&mut i, "boardsize 9\n").unwrap();
    reply(&mut i, "clear_board\n").unwrap();
    assert_eq!(reply(&mut i, "final_score\n"), Ok("W+6.5".to_string()));
}

#[test]
fn final_score_with_one_move() {
    let mut i = GTPInterpreter::new(CGOS);
    reply(&mut i, "boardsize 4\n").unwrap();
    reply(&mut i, "clear_board\n").unwrap();
    reply(&mut i, "play b c2\n").unwrap();
    assert_eq!(reply(&mut i, "final_score\n"), Ok("B+9.5".to_string()));
}

#[test]
fn final_score_after_a_completed_game() {
    let mut i = GTPInterpreter::new(CGOS);
    reply(&mut i, "boardsize 9\n").unwrap();
    reply(&mut i, "clear_board\n").unwrap();
    reply(&mut i, "play b pass\n").unwrap();
    reply(&mut i, "play w pass\n").unwrap();
    assert_eq!(reply(&mut i, "final_score\n"), Ok("W+6.5".to_string()));
}

#[test]
fn reg_genmove_returns_a_move() {
    let mut i = GTPInterpreter::new(CGOS);
    reply(&mut i, "boardsize 9\n").unwrap();
    reply(&mut i, "clear_board\n").unwrap();
    reply(&mut i, "time_settings 100 0 0\n").unwrap();
    assert!(reply(&mut i, "reg_genmove b\n").is_ok());
}

#[test]
fn commands_outside_the_list_are_unknown() {
    let mut i = GTPInterpreter::new(CGOS);
    assert_eq!(reply(&mut i, "imrscl-uct_gfx\n"), Err("unknown command".to_string()));
    assert_eq!(reply(&mut i, "known_command imrscl-donplayouts\n"), Ok("false".to_string()));
}

#[test]
fn boardsize_and_play_change_the_game() {
    let mut i = GTPInterpreter::new(KgsChinese);
    assert_eq!(i.game().size(), 19);
    assert_eq!(i.game().komi(), Komi(65));
    assert_eq!(reply(&mut i, "boardsize 9\n"), Ok(String::new()));
    assert_eq!(i.game().size(), 9);
    assert_eq!(reply(&mut i, "boardsize x\n"), Err("ParseIntError { kind: InvalidDigit }".to_string()));
    assert_eq!(reply(&mut i, "boardsize 300\n"), Err("ParseIntError { kind: PosOverflow }".to_string()));
    assert_eq!(reply(&mut i, "play b c3\n"), Ok(String::new()));
    assert_eq!(i.game().board().color(&Coord::new(3, 3)), Black);
    assert_eq!(
        reply(&mut i, "play w c3\n"),
        Err("Illegal move Play(White, 3, 3) (IntersectionNotEmpty)".to_string())
    );
    assert_eq!(reply(&mut i, "play w\n"), Err("missing argument".to_string()));
    assert_eq!(reply(&mut i, "clear_board\n"), Ok(String::new()));
    assert_eq!(i.game().board().vacant_point_count(), 81);
}

#[test]
fn genmove_plays_for_the_engine() {
    let mut i = GTPInterpreter::new(KgsChinese);
    reply(&mut i, "boardsize 5\n").unwrap();
    let text = reply(&mut i, "genmove b\n").unwrap();
    assert!(!text.is_empty());
    assert_eq!(i.game().next_player(), White);
    let before = i.game().next_player();
    let probe = reply(&mut i, "reg_genmove w\n").unwrap();
    assert!(!probe.is_empty());
    assert_eq!(i.game().next_player(), before);
    assert_eq!(reply(&mut i, "genmove x\n"), Err("invalid color".to_string()));
}

#[test]
fn other_commands_go_to_the_caller_and_quit_stops() {
    let mut i = GTPInterpreter::new(KgsChinese);
    match i.read("komi 7.5\n") {
        Outcome::Delegate(name, args) => {
            assert_eq!(name, "komi");
            assert_eq!(args, vec!["7.5".to_string()]);
        }
        Outcome::Reply(_) => panic!("komi is read by the caller"),
    }
    i.set_komi(Komi(75));
    assert_eq!(i.game().komi(), Komi(75));
    assert!(i.is_running());
    assert_eq!(reply(&mut i, "quit\n"), Ok(String::new()));
    assert!(!i.is_running());
    let mut j = GTPInterpreter::new(KgsChinese);
    j.quit();
    assert!(!j.is_running());
}

use iomrascalai::board::Color::Black;
use iomrascalai::board::Color::White;
use iomrascalai::board::Move::Pass;
use iomrascalai::board::Move::Play;
use iomrascalai::cli::parse_move_line;
use iomrascalai::options::parse_flag;
use iomrascalai::options::parse_i32;
use iomrascalai::options::parse_i64;
use iomrascalai::options::parse_usize;
use iomrascalai::options::thread_count;
use iomrascalai::options::tuned_policy;

#[test]
fn counts_read_as_usize_from_str_does() {
    assert_eq!(parse_usize("12"), Some(12));
    assert_eq!(parse_usize("+7"), Some(7));
    assert_eq!(parse_usize(""), None);
    assert_eq!(parse_usize("+"), None);
    assert_eq!(parse_usize("-3"), None);
    assert_eq!(parse_usize("4x"), None);
    assert_eq!(parse_usize("18446744073709551615"), Some(usize::MAX));
    assert_eq!(parse_usize("18446744073709551616"), None);
}

#[test]
fn flags_read_in_any_case() {
    assert_eq!(parse_flag("true"), Some(true));
    assert_eq!(parse_flag("FALSE"), Some(false));
    assert_eq!(parse_flag("yes"), None);
}

#[test]
fn threads_default_to_one() {
    assert_eq!(thread_count(Some("4")), 4);
    assert_eq!(thread_count(Some("four")), 1);
    assert_eq!(thread_count(None), 1);
}

#[test]
fn only_ucb1_turns_the_tuned_policy_off() {
    assert!(!tuned_policy(Some("UCB1")));
    assert!(tuned_policy(Some("tuned")));
    assert!(tuned_policy(None));
}

#[test]
fn prompt_lines_read_as_moves() {
    assert_eq!(parse_move_line("p\n", Black), Some(Pass(Black)));
    assert_eq!(parse_move_line("3 4\n", White), Some(Play(White, 3, 4)));
    assert_eq!(parse_move_line("3 4 5\n", White), Some(Play(White, 3, 4)));
    assert_eq!(parse_move_line("3\n", White), None);
    assert_eq!(parse_move_line("3  4\n", White), None);
    assert_eq!(parse_move_line("a 4\n", White), None);
    assert_eq!(parse_move_line("\n12 300\n", Black), None);
}

#[test]
fn signed_numbers_read_as_from_str_does() {
    assert_eq!(parse_i64("100"), Some(100));
    assert_eq!(parse_i64("-5"), Some(-5));
    assert_eq!(parse_i64("+5"), Some(5));
    assert_eq!(parse_i64("-0"), Some(0));
    assert_eq!(parse_i64(""), None);
    assert_eq!(parse_i64("-"), None);
    assert_eq!(parse_i64("1.5"), None);
    assert_eq!(parse_i64("9223372036854775807"), Some(i64::MAX));
    assert_eq!(parse_i64("9223372036854775808"), None);
    assert_eq!(parse_i64("-9223372036854775808"), Some(i64::MIN));
    assert_eq!(parse_i64("-9223372036854775809"), None);
    assert_eq!(parse_i32("2147483647"), Some(i32::MAX));
    assert_eq!(parse_i32("2147483648"), None);
    assert_eq!(parse_i32("-2147483648"), Some(i32::MIN));
    assert_eq!(parse_i32("x"), None);
}

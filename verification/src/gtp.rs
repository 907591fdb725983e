//! The Go Text Protocol: cleaning a command line, splitting it into a
//! command and its arguments, and running the command on a game.
use vstd::prelude::*;

use crate::board::chain::color_name;
use crate::board::chain::push_color_name;
use crate::board::coord::all_digits;
use crate::board::coord::digits_value;
use crate::board::coord::lemma_digits_value_grows;
use crate::board::movement::gtp_move;
use crate::board::movement::is_gtp_move;
use crate::board::movement::move_gtp_text;
use crate::board::rules::legal_plays_without_eyes;
use crate::board::Color;
use crate::board::IllegalMove;
use crate::board::Komi;
use crate::board::Move;
use crate::board::is_color_text;
use crate::board::color_text;
use crate::cli::split_on;
use crate::cli::split_range;
use crate::engine::RandomEngine;
use crate::game::playable_moves;
use crate::game::play_outcome;
use crate::game::Game;
use crate::game::game_text;
use crate::game::GameView;
use crate::options::i32_text;
use crate::options::i64_text;
use crate::options::parse_i32;
use crate::options::parse_i64;
use crate::ruleset::Ruleset;
use crate::board::rules::area;
use crate::board::rules::score_color;
use crate::score::score_margin;
use crate::score::score_text;
use crate::score::Score;
use crate::text::decimal;
use crate::text::push_char;
use crate::text::push_decimal;

verus! {

/// A character that the cleaning removes: an ASCII control character.
pub open spec fn is_control(c: char) -> bool {
    (c as int) < 32 || c as int == 127
}

/// A character that `str::trim` removes at the ends and that is left once
/// control characters are gone: the space and the other Unicode spaces.
pub open spec fn is_trimmed_space(c: char) -> bool {
    let x = c as int;
    ||| x == 0x20
    ||| x == 0x85
    ||| x == 0xA0
    ||| x == 0x1680
    ||| 0x2000 <= x <= 0x200A
    ||| x == 0x2028
    ||| x == 0x2029
    ||| x == 0x202F
    ||| x == 0x205F
    ||| x == 0x3000
}

/// Whether a `#` occurs in `s`.
pub open spec fn has_hash(s: Seq<char>) -> bool {
    exists|i: int| 0 <= i < s.len() && s[i] == '#'
}

/// The characters before the first `#`.
pub open spec fn before_comment(s: Seq<char>) -> Seq<char>
    decreases s.len(),
{
    if s.len() == 0 {
        s
    } else if has_hash(s.drop_last()) {
        before_comment(s.drop_last())
    } else if s.last() == '#' {
        s.drop_last()
    } else {
        s
    }
}

/// The characters with tabs made spaces and control characters dropped.
pub open spec fn clean_chars(s: Seq<char>) -> Seq<char>
    decreases s.len(),
{
    if s.len() == 0 {
        Seq::empty()
    } else {
        let c = if s.last() == '\t' { ' ' } else { s.last() };
        if is_control(c) {
            clean_chars(s.drop_last())
        } else {
            clean_chars(s.drop_last()).push(c)
        }
    }
}

/// `s` without its leading spaces.
pub open spec fn trim_start(s: Seq<char>) -> Seq<char>
    decreases s.len(),
{
    if s.len() > 0 && is_trimmed_space(s[0]) {
        trim_start(s.drop_first())
    } else {
        s
    }
}

/// `s` without its trailing spaces.
pub open spec fn trim_end(s: Seq<char>) -> Seq<char>
    decreases s.len(),
{
    if s.len() > 0 && is_trimmed_space(s.last()) {
        trim_end(s.drop_last())
    } else {
        s
    }
}

/// A command line as the interpreter reads it: tabs made spaces, control
/// characters removed, the comment from `#` on removed, and spaces trimmed
/// at both ends.
pub open spec fn cleaned(s: Seq<char>) -> Seq<char> {
    trim_end(trim_start(clean_chars(before_comment(s))))
}

proof fn lemma_before_comment_at(s: Seq<char>, k: int)
    requires
        0 <= k <= s.len(),
        forall|j: int| 0 <= j < k ==> s[j] != '#',
        k == s.len() || s[k] == '#',
    ensures
        before_comment(s) == s.subrange(0, k),
    decreases s.len(),
{
    if s.len() == 0 {
        assert(s.subrange(0, 0) =~= s);
    } else if k == s.len() {
        assert(!has_hash(s.drop_last())) by {
            if has_hash(s.drop_last()) {
                let i = choose|i: int| 0 <= i < s.drop_last().len() && s.drop_last()[i] == '#';
                assert(s[i] == '#');
            }
        }
        assert(s.subrange(0, k) =~= s);
    } else if k == s.len() - 1 {
        assert(!has_hash(s.drop_last())) by {
            if has_hash(s.drop_last()) {
                let i = choose|i: int| 0 <= i < s.drop_last().len() && s.drop_last()[i] == '#';
                assert(s[i] == '#');
            }
        }
        assert(s.drop_last() =~= s.subrange(0, k));
    } else {
        assert(s.drop_last()[k] == '#');
        assert(has_hash(s.drop_last()));
        lemma_before_comment_at(s.drop_last(), k);
        assert(s.drop_last().subrange(0, k) =~= s.subrange(0, k));
    }
}

proof fn lemma_trim_start_from(s: Seq<char>, i: int)
    requires
        0 <= i <= s.len(),
        forall|k: int| 0 <= k < i ==> is_trimmed_space(#[trigger] s[k]),
        i == s.len() || !is_trimmed_space(s[i]),
    ensures
        trim_start(s) == s.subrange(i, s.len() as int),
    decreases i,
{
    if i > 0 {
        assert forall|k: int| 0 <= k < i - 1 implies is_trimmed_space(#[trigger] s.drop_first()[k]) by {
            assert(s.drop_first()[k] == s[k + 1]);
        }
        lemma_trim_start_from(s.drop_first(), i - 1);
        assert(s.drop_first().subrange(i - 1, s.len() - 1) =~= s.subrange(i, s.len() as int));
    } else {
        assert(s.subrange(0, s.len() as int) =~= s);
    }
}

proof fn lemma_trim_end_to(s: Seq<char>, j: int)
    requires
        0 <= j <= s.len(),
        forall|k: int| j <= k < s.len() ==> is_trimmed_space(#[trigger] s[k]),
        j == 0 || !is_trimmed_space(s[j - 1]),
    ensures
        trim_end(s) == s.subrange(0, j),
    decreases s.len() - j,
{
    if j < s.len() {
        assert(is_trimmed_space(s[s.len() - 1]));
        lemma_trim_end_to(s.drop_last(), j);
        assert(s.drop_last().subrange(0, j) =~= s.subrange(0, j));
    } else {
        assert(s.subrange(0, j) =~= s);
    }
}

/// Whether a character is one that trimming removes.
fn is_space(c: char) -> (res: bool)
    ensures
        res == is_trimmed_space(c),
{
    let x = c as u32;
    x == 0x20 || x == 0x85 || x == 0xA0 || x == 0x1680 || (0x2000 <= x && x <= 0x200A) || x == 0x2028
        || x == 0x2029 || x == 0x202F || x == 0x205F || x == 0x3000
}

/// Cleans a command line: tabs become spaces, control characters go, a
/// comment from `#` on goes, and spaces are trimmed at both ends.
pub fn preprocess(input: &str) -> (res: String)
    ensures
        res@ == cleaned(input@),
{
    let n = input.unicode_len();
    let mut k: usize = 0;
    while k < n && input.get_char(k) != '#'
        invariant
            k <= n,
            n == input@.len(),
            forall|j: int| 0 <= j < k ==> input@[j] != '#',
        decreases n - k,
    {
        k = k + 1;
    }
    proof {
        lemma_before_comment_at(input@, k as int);
    }
    let mut chars: Vec<char> = Vec::new();
    let mut i: usize = 0;
    while i < k
        invariant
            i <= k <= n,
            n == input@.len(),
            chars@ == clean_chars(input@.subrange(0, i as int)),
        decreases k - i,
    {
        let c = input.get_char(i);
        let c2 = if c == '\t' { ' ' } else { c };
        proof {
            assert(input@.subrange(0, i + 1).drop_last() =~= input@.subrange(0, i as int));
            assert(input@.subrange(0, i + 1).last() == c);
        }
        let code = c2 as u32;
        if !(code < 32 || code == 127) {
            chars.push(c2);
        }
        i = i + 1;
    }
    let len = chars.len();
    let mut a: usize = 0;
    while a < len && is_space(chars[a])
        invariant
            a <= len,
            len == chars.len(),
            forall|j: int| 0 <= j < a ==> is_trimmed_space(#[trigger] chars@[j]),
        decreases len - a,
    {
        a = a + 1;
    }
    proof {
        lemma_trim_start_from(chars@, a as int);
    }
    let mut b: usize = len;
    while b > a && is_space(chars[b - 1])
        invariant
            a <= b <= len,
            len == chars.len(),
            forall|j: int| b <= j < len ==> is_trimmed_space(#[trigger] chars@[j]),
        decreases b - a,
    {
        b = b - 1;
    }
    let ghost front = chars@.subrange(a as int, len as int);
    proof {
        assert forall|j: int| b - a <= j < front.len() implies is_trimmed_space(#[trigger] front[j]) by {
            assert(front[j] == chars@[a + j]);
        }
        if b > a {
            assert(front[b - a - 1] == chars@[b - 1]);
        }
        lemma_trim_end_to(front, b - a);
    }
    let mut out = String::new();
    let mut j: usize = a;
    while j < b
        invariant
            a <= j <= b <= len,
            len == chars.len(),
            out@ == chars@.subrange(a as int, j as int),
        decreases b - j,
    {
        push_char(&mut out, chars[j]);
        assert(chars@.subrange(a as int, j + 1) =~= chars@.subrange(a as int, j as int).push(chars@[j as int]));
        j = j + 1;
    }
    assert(front.subrange(0, b - a) =~= chars@.subrange(a as int, b as int));
    out
}

/// The commands the interpreter knows, in the order it lists them.
pub open spec fn gtp_commands() -> Seq<Seq<char>> {
    seq![
        "boardsize"@,
        "clear_board"@,
        "final_score"@,
        "final_status_list"@,
        "genmove"@,
        "gogui-analyze_commands"@,
        "imrscl-ownership"@,
        "kgs-genmove_cleanup"@,
        "known_command"@,
        "komi"@,
        "list_commands"@,
        "loadsgf"@,
        "name"@,
        "play"@,
        "protocol_version"@,
        "quit"@,
        "reg_genmove"@,
        "showboard"@,
        "time_left"@,
        "time_settings"@,
        "version"@,
    ]
}

/// The analyze commands offered to GoGui.
pub open spec fn analyze_commands() -> Seq<Seq<char>> {
    seq![
        "dboard/Ownership/imrscl-ownership"@,
        "plist/Final Status List Dead/final_status_list dead"@,
        "plist/Final Status List Alive/final_status_list alive"@,
    ]
}

/// Texts one per line.
pub open spec fn lines(list: Seq<Seq<char>>) -> Seq<char>
    decreases list.len(),
{
    if list.len() == 0 {
        Seq::empty()
    } else if list.len() == 1 {
        list[0]
    } else {
        lines(list.drop_last()) + seq!['\n'] + list.last()
    }
}

/// How a command line splits: an error for an empty or an unknown command,
/// otherwise the command and its arguments.
pub open spec fn parsed(input: Seq<char>) -> Result<(Seq<char>, Seq<Seq<char>>), Seq<char>> {
    let c = cleaned(input);
    if c.len() == 0 {
        Err("empty command"@)
    } else {
        let parts = split_on(c, ' ');
        if !gtp_commands().contains(parts[0]) {
            Err("unknown command"@)
        } else {
            Ok((parts[0], parts.drop_first()))
        }
    }
}

fn command_table() -> (res: Vec<&'static str>)
    ensures
        res@.map_values(|s: &str| s@) == gtp_commands(),
{
    let v: Vec<&'static str> = vec![
        "boardsize",
        "clear_board",
        "final_score",
        "final_status_list",
        "genmove",
        "gogui-analyze_commands",
        "imrscl-ownership",
        "kgs-genmove_cleanup",
        "known_command",
        "komi",
        "list_commands",
        "loadsgf",
        "name",
        "play",
        "protocol_version",
        "quit",
        "reg_genmove",
        "showboard",
        "time_left",
        "time_settings",
        "version",
    ];
    assert(v@.map_values(|s: &str| s@) =~= gtp_commands());
    v
}

/// Whether two texts are the same.
pub fn same_text(a: &str, b: &str) -> (res: bool)
    ensures
        res == (a@ == b@),
{
    let n = a.unicode_len();
    if n != b.unicode_len() {
        return false;
    }
    let mut i: usize = 0;
    while i < n
        invariant
            i <= n,
            n == a@.len(),
            n == b@.len(),
            forall|k: int| 0 <= k < i ==> a@[k] == b@[k],
        decreases n - i,
    {
        if a.get_char(i) != b.get_char(i) {
            return false;
        }
        i = i + 1;
    }
    assert(a@ =~= b@);
    true
}

/// Whether the interpreter knows a command.
pub fn is_known(name: &str) -> (res: bool)
    ensures
        res == gtp_commands().contains(name@),
{
    let table = command_table();
    let mut i: usize = 0;
    while i < table.len()
        invariant
            i <= table.len(),
            table@.map_values(|s: &str| s@) == gtp_commands(),
            forall|k: int| 0 <= k < i ==> gtp_commands()[k] != name@,
        decreases table.len() - i,
    {
        if same_text(table[i], name) {
            assert(gtp_commands()[i as int] == name@);
            return true;
        }
        i = i + 1;
    }
    false
}

/// The given texts one per line.
fn join_lines(list: &Vec<&'static str>) -> (res: String)
    ensures
        res@ == lines(list@.map_values(|s: &str| s@)),
{
    let ghost views = list@.map_values(|s: &str| s@);
    let mut out = String::new();
    let mut i: usize = 0;
    while i < list.len()
        invariant
            i <= list.len(),
            views == list@.map_values(|s: &str| s@),
            out@ == lines(views.subrange(0, i as int)),
        decreases list.len() - i,
    {
        let ghost pre = views.subrange(0, i as int);
        proof {
            assert(views.subrange(0, i + 1).drop_last() =~= pre);
            assert(views.subrange(0, i + 1).last() == list@[i as int]@);
        }
        if i > 0 {
            push_char(&mut out, '\n');
        }
        out.append(list[i]);
        proof {
            if i == 0 {
                assert(out@ =~= lines(views.subrange(0, 1)));
            } else {
                assert(out@ =~= lines(views.subrange(0, i + 1)));
            }
        }
        i = i + 1;
    }
    assert(views.subrange(0, list.len() as int) =~= views);
    out
}

/// Splits a command line into a known command and its arguments.
pub fn parse(input: &str) -> (res: Result<(String, Vec<String>), String>)
    ensures
        match res {
            Ok((name, args)) => parsed(input@) == Ok::<(Seq<char>, Seq<Seq<char>>), Seq<char>>(
                (name@, args@.map_values(|x: String| x@)),
            ),
            Err(e) => parsed(input@) == Err::<(Seq<char>, Seq<Seq<char>>), Seq<char>>(e@),
        },
{
    let cleaned_line = preprocess(input);
    let n = cleaned_line.as_str().unicode_len();
    if n == 0 {
        return Err("empty command".to_owned());
    }
    let mut parts = split_range(cleaned_line.as_str(), 0, n, ' ');
    assert(cleaned_line@.subrange(0, n as int) =~= cleaned_line@);
    let ghost pieces = parts@.map_values(|x: String| x@);
    proof {
        crate::cli::lemma_split_never_empty(cleaned_line@, ' ');
    }
    let name = parts.remove(0);
    assert(parts@.map_values(|x: String| x@) =~= pieces.drop_first());
    if !is_known(name.as_str()) {
        return Err("unknown command".to_owned());
    }
    Ok((name, parts))
}

/// Why a text does not read as a byte, as `u8::from_str` reports it.
#[derive(Clone, Copy, Debug, PartialEq, Eq, Structural)]
pub enum IntErrorKind {
    Empty,
    InvalidDigit,
    PosOverflow,
}

/// The first failure met reading the digits of `d` from the left: a
/// character that is no digit, or a value above 255.
pub open spec fn scan_u8(d: Seq<char>) -> Option<IntErrorKind>
    decreases d.len(),
{
    if d.len() == 0 {
        None
    } else {
        match scan_u8(d.drop_last()) {
            Some(k) => Some(k),
            None => if !('0' <= d.last() <= '9') {
                Some(IntErrorKind::InvalidDigit)
            } else if digits_value(d) > 255 {
                Some(IntErrorKind::PosOverflow)
            } else {
                None
            },
        }
    }
}

/// What `u8::from_str` gives for a text.
pub open spec fn u8_parse(s: Seq<char>) -> Result<u8, IntErrorKind> {
    if s.len() == 0 {
        Err(IntErrorKind::Empty)
    } else {
        let d = if s[0] == '+' { s.drop_first() } else { s };
        if d.len() == 0 {
            Err(IntErrorKind::InvalidDigit)
        } else {
            match scan_u8(d) {
                Some(k) => Err(k),
                None => Ok(digits_value(d) as u8),
            }
        }
    }
}

/// The debug text of a parse error.
pub open spec fn int_error_text(k: IntErrorKind) -> Seq<char> {
    "ParseIntError { kind: "@ + match k {
        IntErrorKind::Empty => "Empty"@,
        IntErrorKind::InvalidDigit => "InvalidDigit"@,
        IntErrorKind::PosOverflow => "PosOverflow"@,
    } + " }"@
}

/// The debug text of a move.
pub open spec fn move_debug(m: Move) -> Seq<char> {
    match m {
        Move::Pass(c) => "Pass("@ + color_name(c) + ")"@,
        Move::Play(c, col, row) => "Play("@ + color_name(c) + ", "@ + decimal(col as nat) + ", "@ + decimal(
            row as nat,
        ) + ")"@,
        Move::Resign(c) => "Resign("@ + color_name(c) + ")"@,
    }
}

/// The debug text of a refusal.
pub open spec fn illegal_text(e: IllegalMove) -> Seq<char> {
    match e {
        IllegalMove::GameAlreadyOver => "GameAlreadyOver"@,
        IllegalMove::IntersectionNotEmpty => "IntersectionNotEmpty"@,
        IllegalMove::Ko => "Ko"@,
        IllegalMove::PlayOutOfBoard => "PlayOutOfBoard"@,
        IllegalMove::SamePlayerPlayedTwice => "SamePlayerPlayedTwice"@,
        IllegalMove::SuicidePlay => "SuicidePlay"@,
        IllegalMove::SuperKo => "SuperKo"@,
    }
}

/// The reply to a refused move.
pub open spec fn illegal_move_text(m: Move, e: IllegalMove) -> Seq<char> {
    "Illegal move "@ + move_debug(m) + " ("@ + illegal_text(e) + ")"@
}

/// Reads a byte as `u8::from_str` does, with the reason of a failure.
pub fn parse_u8_text(s: &str) -> (res: Result<u8, IntErrorKind>)
    ensures
        res == u8_parse(s@),
{
    let n = s.unicode_len();
    if n == 0 {
        return Err(IntErrorKind::Empty);
    }
    let start: usize = if s.get_char(0) == '+' { 1 } else { 0 };
    let ghost d = s@.subrange(start as int, n as int);
    assert(d =~= if s@[0] == '+' { s@.drop_first() } else { s@ });
    if start >= n {
        return Err(IntErrorKind::InvalidDigit);
    }
    let mut value: u32 = 0;
    let mut i: usize = start;
    while i < n
        invariant
            start <= i <= n,
            n == s@.len(),
            d == s@.subrange(start as int, n as int),
            n > 0,
            start < n,
            d == (if s@[0] == '+' { s@.drop_first() } else { s@ }),
            scan_u8(s@.subrange(start as int, i as int)) is None,
            all_digits(s@.subrange(start as int, i as int)),
            value == digits_value(s@.subrange(start as int, i as int)),
            value <= 255,
        decreases n - i,
    {
        let c = s.get_char(i);
        let ghost pre = s@.subrange(start as int, i as int);
        let ghost post = s@.subrange(start as int, i + 1);
        proof {
            assert(post.drop_last() =~= pre);
            assert(post.last() == c);
        }
        if c < '0' || c > '9' {
            proof {
                assert(scan_u8(post) == Some(IntErrorKind::InvalidDigit));
                lemma_scan_extends(s@, start as int, i + 1, n as int);
            }
            return Err(IntErrorKind::InvalidDigit);
        }
        proof {
            lemma_digits_value_grows(pre, c);
            assert(post =~= pre.push(c));
        }
        let next: u32 = value * 10 + (c as u32 - 48);
        if next > 255 {
            proof {
                assert(scan_u8(post) == Some(IntErrorKind::PosOverflow));
                lemma_scan_extends(s@, start as int, i + 1, n as int);
            }
            return Err(IntErrorKind::PosOverflow);
        }
        value = next;
        i = i + 1;
    }
    assert(s@.subrange(start as int, i as int) =~= d);
    Ok(value as u8)
}

/// A failure found in a prefix is the failure of the whole text.
proof fn lemma_scan_extends(s: Seq<char>, start: int, j: int, n: int)
    requires
        0 <= start <= j <= n <= s.len(),
        scan_u8(s.subrange(start, j)) is Some,
    ensures
        scan_u8(s.subrange(start, n)) == scan_u8(s.subrange(start, j)),
    decreases n - j,
{
    if n > j {
        lemma_scan_extends(s, start, j, n - 1);
        assert(s.subrange(start, n).drop_last() =~= s.subrange(start, n - 1));
    }
}

/// The state of an interpreter: the game, the rules new games use, and
/// whether it still runs, and the time settings: main time and byo-yomi
/// time in seconds, and the stones of a byo-yomi period.
pub ghost struct InterpreterView {
    pub game: GameView,
    pub ruleset: Ruleset,
    pub running: bool,
    pub main_time: i64,
    pub byo_time: i64,
    pub byo_stones: i32,
}

/// Everything but the game is kept.
pub open spec fn same_settings(after: InterpreterView, before: InterpreterView) -> bool {
    &&& after.ruleset == before.ruleset
    &&& after.running == before.running
    &&& after.main_time == before.main_time
    &&& after.byo_time == before.byo_time
    &&& after.byo_stones == before.byo_stones
}

/// The result of counting the board of a game by area, with its komi.
pub open spec fn final_score_text(g: GameView) -> Seq<char> {
    let bs = area(g.board, Color::Black) as int;
    let ws = area(g.board, Color::White) as int;
    score_text(score_color(bs, ws, g.board.komi), score_margin(bs, ws, g.board.komi) as nat)
}

/// What a command led to: the reply, or the command and its arguments for
/// the caller, which reads floats and files and keeps the search statistics.
pub enum Outcome {
    Reply(Result<String, String>),
    Delegate(String, Vec<String>),
}

/// The outcome is the given reply.
pub open spec fn replied(o: Outcome, r: Result<Seq<char>, Seq<char>>) -> bool {
    match o {
        Outcome::Reply(Ok(t)) => r == Ok::<Seq<char>, Seq<char>>(t@),
        Outcome::Reply(Err(t)) => r == Err::<Seq<char>, Seq<char>>(t@),
        Outcome::Delegate(_, _) => false,
    }
}

/// A game just started on an empty board.
pub open spec fn fresh_game(g: GameView, size: int, komi: int, ruleset: Ruleset) -> bool {
    &&& g.board == crate::board::rules::empty_board(size, komi, ruleset)
    &&& g.last_move is None
    &&& g.history == seq![0u64]
    &&& g.keys.size == size
}

/// Playing `m`: refused at the 256th pass in a row; otherwise the game's
/// outcome, replying `ok_text` and, if `keep`, continuing with the new game.
pub open spec fn move_done(
    before: InterpreterView,
    after: InterpreterView,
    m: Move,
    keep: bool,
    ok_text: Seq<char>,
    res: Outcome,
) -> bool {
    if m is Pass && before.game.board.consecutive_passes == 255 {
        after == before && replied(res, Err("too many passes"@))
    } else {
        match play_outcome(before.game, m) {
            Ok(g) => replied(res, Ok(ok_text)) && after == (if keep {
                InterpreterView { game: g, ..before }
            } else {
                before
            }),
            Err(e) => replied(res, Err(illegal_move_text(m, e))) && after == before,
        }
    }
}

/// A move the random engine may choose for the game.
pub open spec fn engine_choice(g: GameView, color: Color, m: Move) -> bool {
    let moves = playable_moves(g, legal_plays_without_eyes(g.board));
    &&& moves.len() == 0 ==> m == Move::Pass(color)
    &&& moves.len() > 0 ==> moves.contains(m)
}

/// What a known command does to the interpreter and what it answers.
pub open spec fn command_done(
    before: InterpreterView,
    after: InterpreterView,
    name: Seq<char>,
    args: Seq<Seq<char>>,
    res: Outcome,
) -> bool {
    if name == "name"@ {
        after == before && replied(res, Ok("Iomrascalai"@))
    } else if name == "protocol_version"@ {
        after == before && replied(res, Ok("2"@))
    } else if name == "list_commands"@ {
        after == before && replied(res, Ok(lines(gtp_commands())))
    } else if name == "gogui-analyze_commands"@ {
        after == before && replied(res, Ok(lines(analyze_commands())))
    } else if name == "known_command"@ {
        after == before && if args.len() == 0 {
            replied(res, Err("missing argument"@))
        } else {
            replied(res, Ok(if gtp_commands().contains(args[0]) { "true"@ } else { "false"@ }))
        }
    } else if name == "quit"@ {
        after == (InterpreterView { running: false, ..before }) && replied(res, Ok(""@))
    } else if name == "clear_board"@ {
        &&& same_settings(after, before)
        &&& fresh_game(after.game, before.game.board.size, before.game.board.komi, before.ruleset)
        &&& replied(res, Ok(""@))
    } else if name == "boardsize"@ {
        if args.len() == 0 {
            after == before && replied(res, Err("missing argument"@))
        } else {
            match u8_parse(args[0]) {
                Err(k) => after == before && replied(res, Err(int_error_text(k))),
                Ok(size) => if size >= 127 {
                    after == before && replied(res, Err("board size too large"@))
                } else {
                    &&& same_settings(after, before)
                    &&& fresh_game(after.game, size as int, before.game.board.komi, before.ruleset)
                    &&& replied(res, Ok(""@))
                },
            }
        }
    } else if name == "showboard"@ {
        after == before && replied(res, Ok(seq!['\n'] + game_text(before.game)))
    } else if name == "final_score"@ {
        after == before && replied(res, Ok(final_score_text(before.game)))
    } else if name == "time_settings"@ {
        if args.len() < 3 {
            after == before && replied(res, Err("missing argument(s)"@))
        } else {
            match (i64_text(args[0]), i64_text(args[1]), i32_text(args[2])) {
                (Some(main), Some(byo), Some(stones)) => {
                    &&& after == (InterpreterView { main_time: main, byo_time: byo, byo_stones: stones, ..before })
                    &&& replied(res, Ok(""@))
                },
                _ => after == before && replied(res, Err("error parsing time_settings"@)),
            }
        }
    } else if name == "time_left"@ {
        after == before && if args.len() < 3 {
            replied(res, Err("missing argument(s)"@))
        } else if i64_text(args[1]) is Some && i32_text(args[2]) is Some {
            replied(res, Ok(""@))
        } else {
            replied(res, Err("error parsing time_left"@))
        }
    } else if name == "play"@ {
        if args.len() < 2 {
            after == before && replied(res, Err("missing argument"@))
        } else if !is_gtp_move(args[0], args[1]) {
            after == before && replied(res, Err("invalid move"@))
        } else {
            move_done(before, after, gtp_move(args[0], args[1]), true, ""@, res)
        }
    } else if name == "genmove"@ || name == "reg_genmove"@ {
        if args.len() == 0 {
            after == before && replied(res, Err("missing argument"@))
        } else if !is_color_text(args[0]) {
            after == before && replied(res, Err("invalid color"@))
        } else {
            let keep = name == "genmove"@;
            exists|m: Move|
                #[trigger] engine_choice(before.game, color_text(args[0]), m) && move_done(
                    before,
                    after,
                    m,
                    keep,
                    move_gtp_text(m),
                    res,
                )
        }
    } else {
        after == before && match res {
            Outcome::Delegate(c, a) => c@ == name && a@.map_values(|x: String| x@) == args,
            Outcome::Reply(_) => false,
        }
    }
}

/// Appends the debug text of a move.
fn push_move_debug(s: &mut String, m: Move)
    ensures
        final(s)@ == old(s)@ + move_debug(m),
{
    let ghost before = s@;
    match m {
        Move::Pass(c) => {
            s.append("Pass(");
            push_color_name(s, c);
            s.append(")");
        },
        Move::Play(c, col, row) => {
            s.append("Play(");
            push_color_name(s, c);
            s.append(", ");
            push_decimal(s, col as u128);
            s.append(", ");
            push_decimal(s, row as u128);
            s.append(")");
        },
        Move::Resign(c) => {
            s.append("Resign(");
            push_color_name(s, c);
            s.append(")");
        },
    }
    assert(s@ =~= before + move_debug(m));
}

/// The reply to a refused move.
fn illegal_move_reply(m: Move, e: IllegalMove) -> (res: String)
    ensures
        res@ == illegal_move_text(m, e),
{
    let mut s = "Illegal move ".to_owned();
    push_move_debug(&mut s, m);
    s.append(" (");
    match e {
        IllegalMove::GameAlreadyOver => s.append("GameAlreadyOver"),
        IllegalMove::IntersectionNotEmpty => s.append("IntersectionNotEmpty"),
        IllegalMove::Ko => s.append("Ko"),
        IllegalMove::PlayOutOfBoard => s.append("PlayOutOfBoard"),
        IllegalMove::SamePlayerPlayedTwice => s.append("SamePlayerPlayedTwice"),
        IllegalMove::SuicidePlay => s.append("SuicidePlay"),
        IllegalMove::SuperKo => s.append("SuperKo"),
    }
    s.append(")");
    assert(s@ =~= illegal_move_text(m, e));
    s
}

/// The reply to a text that does not read as a byte.
fn int_error_reply(k: IntErrorKind) -> (res: String)
    ensures
        res@ == int_error_text(k),
{
    let mut s = "ParseIntError { kind: ".to_owned();
    match k {
        IntErrorKind::Empty => s.append("Empty"),
        IntErrorKind::InvalidDigit => s.append("InvalidDigit"),
        IntErrorKind::PosOverflow => s.append("PosOverflow"),
    }
    s.append(" }");
    assert(s@ =~= int_error_text(k));
    s
}

/// A play the engine chooses lies on the board.
proof fn generated_move_fits(g: GameView, color: Color, m: Move)
    requires
        color != Color::Empty,
        engine_choice(g, color, m),
        g.board.size < 127,
    ensures
        m is Play ==> m->1 < 191,
{
    let b = g.board;
    let moves = playable_moves(g, legal_plays_without_eyes(b));
    if moves.len() > 0 {
        crate::game::lemma_playable_moves_from(g, legal_plays_without_eyes(b));
        crate::board::laws::lemma_eyeless_plays_are_legal(b);
        crate::board::laws::lemma_legal_plays_exact(b);
        let i = choose|i: int| 0 <= i < moves.len() && moves[i] == m;
        assert(legal_plays_without_eyes(b).contains(moves[i]));
        let j = choose|j: int| 0 <= j < legal_plays_without_eyes(b).len() && legal_plays_without_eyes(b)[j] == m;
        assert(crate::board::rules::legal_plays(b).contains(legal_plays_without_eyes(b)[j]));
        let k = choose|k: int| 0 <= k < crate::board::rules::legal_plays(b).len() && crate::board::rules::legal_plays(b)[k] == m;
        assert(crate::board::coord::inside(crate::board::movement::move_coord(crate::board::rules::legal_plays(b)[k]), b.size));
    }
}

/// A Go Text Protocol interpreter over a game played with a random engine.
pub struct GTPInterpreter {
    byo_stones: i32,
    byo_time: i64,
    game: Game,
    main_time: i64,
    ruleset: Ruleset,
    running: bool,
}

impl View for GTPInterpreter {
    type V = InterpreterView;

    closed spec fn view(&self) -> InterpreterView {
        InterpreterView {
            game: self.game@,
            ruleset: self.ruleset,
            running: self.running,
            main_time: self.main_time,
            byo_time: self.byo_time,
            byo_stones: self.byo_stones,
        }
    }
}

impl GTPInterpreter {
    /// An interpreter over an empty 19x19 board with a komi of 6.5, five
    /// seconds of main time and no byo-yomi.
    pub fn new(ruleset: Ruleset) -> (res: GTPInterpreter)
        ensures
            fresh_game(res@.game, 19, 65, ruleset),
            res@.ruleset == ruleset,
            res@.running,
            res@.main_time == 5,
            res@.byo_time == 0,
            res@.byo_stones == 0,
    {
        GTPInterpreter {
            byo_stones: 0,
            byo_time: 0,
            game: Game::new(19, Komi(65), ruleset),
            main_time: 5,
            ruleset,
            running: true,
        }
    }

    /// The main time, in seconds.
    pub fn main_time(&self) -> (res: i64)
        ensures
            res == self@.main_time,
    {
        self.main_time
    }

    /// The byo-yomi time, in seconds.
    pub fn byo_time(&self) -> (res: i64)
        ensures
            res == self@.byo_time,
    {
        self.byo_time
    }

    /// The stones to play in each byo-yomi period.
    pub fn byo_stones(&self) -> (res: i32)
        ensures
            res == self@.byo_stones,
    {
        self.byo_stones
    }

    pub fn is_running(&self) -> (res: bool)
        ensures
            res == self@.running,
    {
        self.running
    }

    /// The game being played.
    pub fn game(&self) -> (res: &Game)
        ensures
            res@ == self@.game,
    {
        &self.game
    }

    pub fn ruleset(&self) -> (res: Ruleset)
        ensures
            res == self@.ruleset,
    {
        self.ruleset
    }

    /// The komi of the game, in tenths of a point.
    pub fn komi(&self) -> (res: Komi)
        ensures
            res.0 == self@.game.board.komi,
    {
        self.game.komi()
    }

    /// The size of the board.
    pub fn boardsize(&self) -> (res: u8)
        ensures
            res == self@.game.board.size,
    {
        self.game.size()
    }

    /// Stops the interpreter.
    pub fn quit(&mut self)
        ensures
            final(self)@ == (InterpreterView { running: false, ..old(self)@ }),
    {
        self.running = false;
    }

    /// Sets the komi of the game.
    pub fn set_komi(&mut self, komi: Komi)
        ensures
            final(self)@ == (InterpreterView {
                game: GameView { board: crate::board::rules::BoardView { komi: komi.0 as int, ..old(self)@.game.board }, ..old(self)@.game },
                ..old(self)@
            }),
    {
        self.game.set_komi(komi);
    }

    /// Plays `m`, keeping the new game if `keep`, and replies `ok_text`.
    fn play_move(&mut self, m: Move, keep: bool, ok_text: String) -> (res: Outcome)
        ensures
            move_done(old(self)@, final(self)@, m, keep, ok_text@, res),
    {
        let board = self.game.board();
        if m.is_pass() && board.consecutive_passes() == 255 {
            return Outcome::Reply(Err("too many passes".to_owned()));
        }
        match self.game.play(m) {
            Ok(g) => {
                if keep {
                    self.game = g;
                }
                Outcome::Reply(Ok(ok_text))
            },
            Err(e) => Outcome::Reply(Err(illegal_move_reply(m, e))),
        }
    }

    /// Runs a known command with its arguments.
    pub fn execute(&mut self, name: &str, args: &Vec<String>) -> (res: Outcome)
        ensures
            command_done(old(self)@, final(self)@, name@, args@.map_values(|x: String| x@), res),
    {
        let ghost argv = args@.map_values(|x: String| x@);
        proof {
            reveal_strlit("name");
            reveal_strlit("protocol_version");
            reveal_strlit("list_commands");
            reveal_strlit("gogui-analyze_commands");
            reveal_strlit("known_command");
            reveal_strlit("quit");
            reveal_strlit("clear_board");
            reveal_strlit("boardsize");
            reveal_strlit("play");
            reveal_strlit("genmove");
            reveal_strlit("reg_genmove");
            reveal_strlit("showboard");
            reveal_strlit("final_score");
            reveal_strlit("time_settings");
            reveal_strlit("time_left");
        }
        if same_text(name, "name") {
            Outcome::Reply(Ok("Iomrascalai".to_owned()))
        } else if same_text(name, "protocol_version") {
            Outcome::Reply(Ok("2".to_owned()))
        } else if same_text(name, "list_commands") {
            Outcome::Reply(Ok(join_lines(&command_table())))
        } else if same_text(name, "gogui-analyze_commands") {
            let v: Vec<&'static str> = vec![
                "dboard/Ownership/imrscl-ownership",
                "plist/Final Status List Dead/final_status_list dead",
                "plist/Final Status List Alive/final_status_list alive",
            ];
            assert(v@.map_values(|s: &str| s@) =~= analyze_commands());
            Outcome::Reply(Ok(join_lines(&v)))
        } else if same_text(name, "known_command") {
            if args.len() == 0 {
                Outcome::Reply(Err("missing argument".to_owned()))
            } else {
                assert(argv[0] == args@[0]@);
                if is_known(args[0].as_str()) {
                    Outcome::Reply(Ok("true".to_owned()))
                } else {
                    Outcome::Reply(Ok("false".to_owned()))
                }
            }
        } else if same_text(name, "quit") {
            self.running = false;
            Outcome::Reply(Ok("".to_owned()))
        } else if same_text(name, "clear_board") {
            let size = self.game.size();
            let komi = self.game.komi();
            let current = self.game.board();
            proof {
                current.lemma_well_formed();
            }
            self.game = Game::new(size, komi, self.ruleset);
            Outcome::Reply(Ok("".to_owned()))
        } else if same_text(name, "boardsize") {
            if args.len() == 0 {
                Outcome::Reply(Err("missing argument".to_owned()))
            } else {
                assert(argv[0] == args@[0]@);
                match parse_u8_text(args[0].as_str()) {
                    Err(k) => Outcome::Reply(Err(int_error_reply(k))),
                    Ok(size) => {
                        if size >= 127 {
                            Outcome::Reply(Err("board size too large".to_owned()))
                        } else {
                            let komi = self.game.komi();
                            self.game = Game::new(size, komi, self.ruleset);
                            Outcome::Reply(Ok("".to_owned()))
                        }
                    },
                }
            }
        } else if same_text(name, "showboard") {
            let mut s = String::new();
            push_char(&mut s, '\n');
            let text = self.game.as_string();
            s.append(text.as_str());
            Outcome::Reply(Ok(s))
        } else if same_text(name, "final_score") {
            let board = self.game.board();
            Outcome::Reply(Ok(Score::new(board.score(), self.game.komi()).as_string()))
        } else if same_text(name, "time_settings") {
            if args.len() < 3 {
                Outcome::Reply(Err("missing argument(s)".to_owned()))
            } else {
                assert(argv[0] == args@[0]@ && argv[1] == args@[1]@ && argv[2] == args@[2]@);
                match (parse_i64(args[0].as_str()), parse_i64(args[1].as_str()), parse_i32(args[2].as_str())) {
                    (Some(main), Some(byo), Some(stones)) => {
                        self.main_time = main;
                        self.byo_time = byo;
                        self.byo_stones = stones;
                        Outcome::Reply(Ok("".to_owned()))
                    },
                    _ => Outcome::Reply(Err("error parsing time_settings".to_owned())),
                }
            }
        } else if same_text(name, "time_left") {
            if args.len() < 3 {
                Outcome::Reply(Err("missing argument(s)".to_owned()))
            } else {
                assert(argv[1] == args@[1]@ && argv[2] == args@[2]@);
                match (parse_i64(args[1].as_str()), parse_i32(args[2].as_str())) {
                    (Some(_), Some(_)) => Outcome::Reply(Ok("".to_owned())),
                    _ => Outcome::Reply(Err("error parsing time_left".to_owned())),
                }
            }
        } else if same_text(name, "play") {
            if args.len() < 2 {
                Outcome::Reply(Err("missing argument".to_owned()))
            } else {
                assert(argv[0] == args@[0]@ && argv[1] == args@[1]@);
                if !crate::board::movement::is_gtp_move_text(args[0].as_str(), args[1].as_str()) {
                    Outcome::Reply(Err("invalid move".to_owned()))
                } else {
                    let m = Move::from_gtp(args[0].as_str(), args[1].as_str());
                    self.play_move(m, true, "".to_owned())
                }
            }
        } else if same_text(name, "genmove") || same_text(name, "reg_genmove") {
            let keep = same_text(name, "genmove");
            if args.len() == 0 {
                Outcome::Reply(Err("missing argument".to_owned()))
            } else {
                assert(argv[0] == args@[0]@);
                if !crate::board::is_gtp_color(args[0].as_str()) {
                    Outcome::Reply(Err("invalid color".to_owned()))
                } else {
                    let color = Color::from_gtp(args[0].as_str());
                    let engine = RandomEngine::new();
                    let m = engine.gen_move(color, &self.game);
                    let current = self.game.board();
                    proof {
                        current.lemma_well_formed();
                        generated_move_fits(self.game@, color, m);
                    }
                    let text = m.to_gtp();
                    let ghost before = self@;
                    let res = self.play_move(m, keep, text);
                    assert(engine_choice(before.game, color_text(argv[0]), m));
                    assert(move_done(before, self@, m, keep, move_gtp_text(m), res));
                    res
                }
            }
        } else {
            let mut copied: Vec<String> = Vec::new();
            let mut i: usize = 0;
            while i < args.len()
                invariant
                    i <= args.len(),
                    copied@.map_values(|x: String| x@) == args@.subrange(0, i as int).map_values(|x: String| x@),
                decreases args.len() - i,
            {
                let ghost before = copied@.map_values(|x: String| x@);
                copied.push(args[i].clone());
                assert(copied@.map_values(|x: String| x@) =~= before.push(args@[i as int]@));
                assert(args@.subrange(0, i + 1) =~= args@.subrange(0, i as int).push(args@[i as int]));
                assert(copied@.map_values(|x: String| x@) =~= args@.subrange(0, i + 1).map_values(|x: String| x@));
                i = i + 1;
            }
            assert(args@.subrange(0, args.len() as int) =~= args@);
            Outcome::Delegate(name.to_owned(), copied)
        }
    }

    /// Reads and runs one command line.
    pub fn read(&mut self, input: &str) -> (res: Outcome)
        ensures
            match parsed(input@) {
                Err(e) => replied(res, Err(e)) && final(self)@ == old(self)@,
                Ok((name, args)) => command_done(old(self)@, final(self)@, name, args, res),
            },
    {
        match parse(input) {
            Err(e) => Outcome::Reply(Err(e)),
            Ok((name, args)) => self.execute(name.as_str(), &args),
        }
    }
}

} // verus!

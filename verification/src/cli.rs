//! Reading the moves typed at the interactive prompt.
use vstd::prelude::*;

use crate::board::coord::parse_u8_from;
use crate::board::coord::u8_text;
use crate::board::Color;
use crate::board::Move;
use crate::text::push_char;

verus! {

/// `s` without the copies of `c` at its start.
pub open spec fn strip_front(s: Seq<char>, c: char) -> Seq<char>
    decreases s.len(),
{
    if s.len() > 0 && s[0] == c {
        strip_front(s.drop_first(), c)
    } else {
        s
    }
}

/// `s` without the copies of `c` at its end.
pub open spec fn strip_back(s: Seq<char>, c: char) -> Seq<char>
    decreases s.len(),
{
    if s.len() > 0 && s.last() == c {
        strip_back(s.drop_last(), c)
    } else {
        s
    }
}

/// The pieces of `s` between the separators `c`, empty pieces included,
/// as `str::split` gives them.
pub open spec fn split_on(s: Seq<char>, c: char) -> Seq<Seq<char>>
    decreases s.len(),
{
    if s.len() == 0 {
        seq![Seq::empty()]
    } else {
        let r = split_on(s.drop_last(), c);
        if s.last() == c {
            r.push(Seq::empty())
        } else {
            r.update(r.len() - 1, r.last().push(s.last()))
        }
    }
}

/// The move a line typed by `player` names: `p` and a newline for a pass,
/// otherwise numbers separated by spaces, of which the first two are the
/// column and the row; none if a piece is not a number or fewer than two
/// are given.
pub open spec fn line_move(line: Seq<char>, player: Color) -> Option<Move> {
    if line == seq!['p', '\n'] {
        Some(Move::Pass(player))
    } else {
        let parts = split_on(strip_back(strip_front(line, '\n'), '\n'), ' ');
        if parts.len() >= 2 && forall|i: int| 0 <= i < parts.len() ==> u8_text(#[trigger] parts[i]) is Some {
            Some(Move::Play(player, u8_text(parts[0])->0, u8_text(parts[1])->0))
        } else {
            None
        }
    }
}

pub proof fn lemma_split_never_empty(s: Seq<char>, c: char)
    ensures
        split_on(s, c).len() >= 1,
    decreases s.len(),
{
    if s.len() > 0 {
        lemma_split_never_empty(s.drop_last(), c);
    }
}

proof fn lemma_strip_front_from(s: Seq<char>, c: char, i: int)
    requires
        0 <= i <= s.len(),
        forall|k: int| 0 <= k < i ==> s[k] == c,
        i == s.len() || s[i] != c,
    ensures
        strip_front(s, c) == s.subrange(i, s.len() as int),
    decreases i,
{
    if i > 0 {
        lemma_strip_front_from(s.drop_first(), c, i - 1);
        assert(s.drop_first().subrange(i - 1, s.len() - 1) =~= s.subrange(i, s.len() as int));
    } else {
        assert(s.subrange(0, s.len() as int) =~= s);
    }
}

proof fn lemma_strip_back_to(s: Seq<char>, c: char, j: int)
    requires
        0 <= j <= s.len(),
        forall|k: int| j <= k < s.len() ==> s[k] == c,
        j == 0 || s[j - 1] != c,
    ensures
        strip_back(s, c) == s.subrange(0, j),
    decreases s.len() - j,
{
    if j < s.len() {
        lemma_strip_back_to(s.drop_last(), c, j);
        assert(s.drop_last().subrange(0, j) =~= s.subrange(0, j));
    } else {
        assert(s.subrange(0, j) =~= s);
    }
}

/// The pieces of `s[from..to]` between the separators `sep`.
pub fn split_range(s: &str, from: usize, to: usize, sep: char) -> (res: Vec<String>)
    requires
        from <= to <= s@.len(),
    ensures
        res@.map_values(|x: String| x@) == split_on(s@.subrange(from as int, to as int), sep),
{
    let mut parts: Vec<String> = Vec::new();
    let mut cur = String::new();
    let mut i: usize = from;
    while i < to
        invariant
            from <= i <= to <= s@.len(),
            parts@.map_values(|x: String| x@).push(cur@) == split_on(s@.subrange(from as int, i as int), sep),
        decreases to - i,
    {
        let ch = s.get_char(i);
        let ghost pre = s@.subrange(from as int, i as int);
        let ghost old_parts = parts@.map_values(|x: String| x@);
        let ghost old_cur = cur@;
        proof {
            assert(s@.subrange(from as int, i + 1).drop_last() =~= pre);
            assert(s@.subrange(from as int, i + 1).last() == ch);
        }
        if ch == sep {
            parts.push(cur);
            cur = String::new();
            assert(parts@.map_values(|x: String| x@) =~= old_parts.push(old_cur));
            assert(parts@.map_values(|x: String| x@).push(cur@) =~= split_on(pre, sep).push(Seq::empty()));
        } else {
            push_char(&mut cur, ch);
            assert(parts@.map_values(|x: String| x@) =~= old_parts);
            proof {
                let r = split_on(pre, sep);
                assert(r == old_parts.push(old_cur));
                assert(r.update(r.len() - 1, r.last().push(ch)) =~= old_parts.push(old_cur.push(ch)));
            }
        }
        i = i + 1;
    }
    let ghost before = parts@.map_values(|x: String| x@);
    parts.push(cur);
    assert(parts@.map_values(|x: String| x@) =~= before.push(cur@));
    parts
}

/// Reads the move that a line typed by `player` names.
pub fn parse_move_line(line: &str, player: Color) -> (res: Option<Move>)
    ensures
        res == line_move(line@, player),
{
    let n = line.unicode_len();
    if n == 2 && line.get_char(0) == 'p' && line.get_char(1) == '\n' {
        assert(line@ =~= seq!['p', '\n']);
        return Some(Move::Pass(player));
    }
    assert(line@ != seq!['p', '\n']) by {
        if line@ == seq!['p', '\n'] {
            assert(line@[0] == 'p' && line@[1] == '\n');
        }
    }
    let mut a: usize = 0;
    while a < n && line.get_char(a) == '\n'
        invariant
            a <= n,
            n == line@.len(),
            forall|k: int| 0 <= k < a ==> line@[k] == '\n',
        decreases n - a,
    {
        a = a + 1;
    }
    let ghost front = line@.subrange(a as int, n as int);
    proof {
        lemma_strip_front_from(line@, '\n', a as int);
    }
    let mut b: usize = n;
    while b > a && line.get_char(b - 1) == '\n'
        invariant
            a <= b <= n,
            n == line@.len(),
            forall|k: int| b <= k < n ==> line@[k] == '\n',
        decreases b - a,
    {
        b = b - 1;
    }
    let ghost body = line@.subrange(a as int, b as int);
    proof {
        lemma_strip_back_to(front, '\n', b - a);
        assert(front.subrange(0, b - a) =~= body);
    }
    let parts = split_range(line, a, b, ' ');
    let ghost pieces = split_on(body, ' ');
    let mut values: Vec<u8> = Vec::new();
    let mut k: usize = 0;
    while k < parts.len()
        invariant
            k <= parts.len(),
            pieces == parts@.map_values(|x: String| x@),
            pieces == split_on(strip_back(strip_front(line@, '\n'), '\n'), ' '),
            line@ != seq!['p', '\n'],
            values.len() == k,
            forall|j: int| 0 <= j < k ==> u8_text(#[trigger] pieces[j]) == Some(values@[j]),
        decreases parts.len() - k,
    {
        let part = &parts[k];
        proof {
            assert(pieces[k as int] == part@);
            assert(part@.subrange(0, part@.len() as int) =~= part@);
        }
        match parse_u8_from(part.as_str(), 0) {
            Some(v) => values.push(v),
            None => {
                assert(u8_text(pieces[k as int]) is None);
                return None;
            },
        }
        k = k + 1;
    }
    if values.len() < 2 {
        return None;
    }
    Some(Move::Play(player, values[0], values[1]))
}

} // verus!

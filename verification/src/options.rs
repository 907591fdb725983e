//! Reading the values of command-line options.
use vstd::prelude::*;

use crate::board::coord::all_digits;
use crate::board::coord::digits_value;
use crate::board::coord::lemma_digits_value_grows;
use crate::board::coord::lemma_prefix_value_bound;
use crate::board::movement::spells;
use crate::board::movement::spells_word;

verus! {

/// The number that a text denotes as `usize::from_str` reads it: an
/// optional `+`, then one or more digits whose value fits.
pub open spec fn usize_text(s: Seq<char>) -> Option<usize> {
    let d = if s.len() > 0 && s[0] == '+' { s.drop_first() } else { s };
    if d.len() > 0 && all_digits(d) && digits_value(d) <= usize::MAX {
        Some(digits_value(d) as usize)
    } else {
        None
    }
}

/// The number that a text denotes as a signed `from_str` reads it: an
/// optional `+` or `-`, then one or more digits.
pub open spec fn signed_text(s: Seq<char>) -> Option<int> {
    let d = if s.len() > 0 && (s[0] == '+' || s[0] == '-') { s.drop_first() } else { s };
    if d.len() > 0 && all_digits(d) {
        Some(if s[0] == '-' { -digits_value(d) } else { digits_value(d) })
    } else {
        None
    }
}

/// What `i64::from_str` gives for a text: its signed value where that fits.
pub open spec fn i64_text(s: Seq<char>) -> Option<i64> {
    match signed_text(s) {
        Some(v) => if i64::MIN <= v <= i64::MAX {
            Some(v as i64)
        } else {
            None
        },
        None => None,
    }
}

/// What `i32::from_str` gives for a text: its signed value where that fits.
pub open spec fn i32_text(s: Seq<char>) -> Option<i32> {
    match signed_text(s) {
        Some(v) => if i32::MIN <= v <= i32::MAX {
            Some(v as i32)
        } else {
            None
        },
        None => None,
    }
}

/// Reads a signed number as `i64::from_str` does.
pub fn parse_i64(s: &str) -> (res: Option<i64>)
    ensures
        res == i64_text(s@),
{
    let len = s.unicode_len();
    let mut start: usize = 0;
    let mut negative = false;
    if len > 0 {
        let c0 = s.get_char(0);
        if c0 == '+' || c0 == '-' {
            start = 1;
            negative = c0 == '-';
        }
    }
    let ghost d = s@.subrange(start as int, s@.len() as int);
    assert(d =~= if s@.len() > 0 && (s@[0] == '+' || s@[0] == '-') { s@.drop_first() } else { s@ });
    if start >= len {
        return None;
    }
    let limit: u128 = 9223372036854775808;
    let mut value: u128 = 0;
    let mut i = start;
    while i < len
        invariant
            start <= i <= len,
            start < len,
            len == s@.len(),
            d == s@.subrange(start as int, s@.len() as int),
            d == (if s@.len() > 0 && (s@[0] == '+' || s@[0] == '-') { s@.drop_first() } else { s@ }),
            negative == (s@[0] == '-'),
            limit == 9223372036854775808,
            all_digits(s@.subrange(start as int, i as int)),
            value <= limit,
            value == digits_value(s@.subrange(start as int, i as int)),
        decreases len - i,
    {
        let c = s.get_char(i);
        if c < '0' || c > '9' {
            assert(!all_digits(d)) by {
                assert(d[i - start] == c);
            }
            return None;
        }
        let ghost pre = s@.subrange(start as int, i as int);
        proof {
            lemma_digits_value_grows(pre, c);
            assert(s@.subrange(start as int, i + 1) =~= pre.push(c));
        }
        let digit: u128 = (c as u32 - 48) as u128;
        let next: u128 = value * 10 + digit;
        if next > limit {
            proof {
                if all_digits(d) {
                    lemma_prefix_value_bound(d, (i + 1 - start) as nat);
                    assert(d.subrange(0, i + 1 - start) =~= s@.subrange(start as int, i + 1));
                }
            }
            return None;
        }
        value = next;
        i = i + 1;
    }
    assert(s@.subrange(start as int, i as int) =~= d);
    if negative {
        let magnitude: i128 = value as i128;
        Some((0 - magnitude) as i64)
    } else if value == limit {
        None
    } else {
        Some(value as i64)
    }
}

/// Reads a signed number as `i32::from_str` does.
pub fn parse_i32(s: &str) -> (res: Option<i32>)
    ensures
        res == i32_text(s@),
{
    match parse_i64(s) {
        Some(v) => if -2147483648 <= v && v <= 2147483647 {
            Some(v as i32)
        } else {
            None
        },
        None => {
            proof {
                match signed_text(s@) {
                    Some(v) => assert(!(i64::MIN <= v <= i64::MAX)),
                    None => {},
                }
            }
            None
        },
    }
}

/// The truth value a text names, in any case: `true` or `false`.
pub open spec fn flag_text(s: Seq<char>) -> Option<bool> {
    if spells(s, seq!['t', 'r', 'u', 'e']) {
        Some(true)
    } else if spells(s, seq!['f', 'a', 'l', 's', 'e']) {
        Some(false)
    } else {
        None
    }
}

/// Reads a count as `usize::from_str` does.
pub fn parse_usize(s: &str) -> (res: Option<usize>)
    ensures
        res == usize_text(s@),
{
    let len = s.unicode_len();
    let mut start: usize = 0;
    if len > 0 && s.get_char(0) == '+' {
        start = 1;
    }
    let ghost d = s@.subrange(start as int, s@.len() as int);
    assert(d =~= if s@.len() > 0 && s@[0] == '+' { s@.drop_first() } else { s@ });
    if start >= len {
        return None;
    }
    let mut value: u128 = 0;
    let mut i = start;
    while i < len
        invariant
            start <= i <= len,
            len == s@.len(),
            d == s@.subrange(start as int, s@.len() as int),
            d == (if s@.len() > 0 && s@[0] == '+' { s@.drop_first() } else { s@ }),
            all_digits(s@.subrange(start as int, i as int)),
            value <= usize::MAX,
            value == digits_value(s@.subrange(start as int, i as int)),
        decreases len - i,
    {
        let c = s.get_char(i);
        if c < '0' || c > '9' {
            assert(!all_digits(d)) by {
                assert(d[i - start] == c);
            }
            return None;
        }
        let ghost pre = s@.subrange(start as int, i as int);
        proof {
            lemma_digits_value_grows(pre, c);
            assert(s@.subrange(start as int, i + 1) =~= pre.push(c));
        }
        let digit: u128 = (c as u32 - 48) as u128;
        let next: u128 = value * 10 + digit;
        if next > usize::MAX as u128 {
            proof {
                if all_digits(d) {
                    lemma_prefix_value_bound(d, (i + 1 - start) as nat);
                    assert(d.subrange(0, i + 1 - start) =~= s@.subrange(start as int, i + 1));
                }
            }
            return None;
        }
        value = next;
        i = i + 1;
    }
    assert(s@.subrange(start as int, i as int) =~= d);
    Some(value as usize)
}

/// Reads `true` or `false` in any case.
pub fn parse_flag(s: &str) -> (res: Option<bool>)
    ensures
        res == flag_text(s@),
{
    proof {
        reveal_strlit("true");
        reveal_strlit("false");
    }
    if spells_word(s, "true") {
        Some(true)
    } else if spells_word(s, "false") {
        Some(false)
    } else {
        None
    }
}

/// The number of search threads an option asks for: its value where it
/// reads as a count, otherwise one.
pub fn thread_count(arg: Option<&str>) -> (res: usize)
    ensures
        res == match arg {
            Some(s) => match usize_text(s@) {
                Some(n) => n,
                None => 1,
            },
            None => 1,
        },
{
    match arg {
        Some(s) => match parse_usize(s) {
            Some(n) => n,
            None => 1,
        },
        None => 1,
    }
}

/// Whether the tuned selection policy is used: unless the option names
/// `ucb1`, in any case.
pub fn tuned_policy(arg: Option<&str>) -> (res: bool)
    ensures
        res == match arg {
            Some(s) => !spells(s@, seq!['u', 'c', 'b', '1']),
            None => true,
        },
{
    proof {
        reveal_strlit("ucb1");
    }
    match arg {
        Some(s) => !spells_word(s, "ucb1"),
        None => true,
    }
}

} // verus!

//! Small helpers for building the textual forms of board objects.
use vstd::prelude::*;

verus! {

/// The character of a single decimal digit.
pub open spec fn digit_char(d: nat) -> char {
    (48 + d) as char
}

/// The decimal representation of a natural number, most significant digit first.
pub open spec fn decimal(n: nat) -> Seq<char>
    decreases n,
{
    if n < 10 {
        seq![digit_char(n)]
    } else {
        decimal(n / 10).push(digit_char(n % 10))
    }
}

/// A decimal representation is a non-empty run of digits of the number's
/// value.
pub proof fn lemma_decimal_digits(n: nat)
    ensures
        decimal(n).len() > 0,
        forall|i: int| 0 <= i < decimal(n).len() ==> '0' <= #[trigger] decimal(n)[i] <= '9',
        decimal_value(decimal(n)) == n,
    decreases n,
{
    let d = digit_char(n % 10);
    assert(d as int == 48 + n % 10);
    if n >= 10 {
        lemma_decimal_digits(n / 10);
        let s = decimal(n / 10);
        assert(decimal(n).drop_last() =~= s);
        assert(decimal(n).last() == d);
        assert(decimal_value(decimal(n)) == decimal_value(s) * 10 + (d as int - 48));
        assert((n / 10) * 10 + n % 10 == n);
    } else {
        assert(decimal(n).drop_last() =~= Seq::<char>::empty());
        assert(decimal(n).last() == d);
        assert(decimal_value(decimal(n)) == decimal_value(Seq::<char>::empty()) * 10 + (d as int - 48));
    }
}

/// The number that a run of digits denotes.
pub open spec fn decimal_value(s: Seq<char>) -> int
    decreases s.len(),
{
    if s.len() == 0 {
        0
    } else {
        decimal_value(s.drop_last()) * 10 + (s.last() as int - 48)
    }
}

/// Appends one character to a string with std's `String::push`; the
/// contract claims that the string's characters become the old ones followed
/// by `c`.
#[verifier::external_body]
pub(crate) fn push_char(s: &mut String, c: char)
    ensures
        final(s)@ == old(s)@.push(c),
{
    s.push(c);
}

/// The character of a digit below ten.
pub fn digit_to_char(d: u8) -> (c: char)
    requires
        d < 10,
    ensures
        c == digit_char(d as nat),
{
    let b: u8 = 48 + d;
    b as char
}

/// Appends the decimal representation of `n` to `s`.
pub fn push_decimal(s: &mut String, n: u128)
    ensures
        final(s)@ == old(s)@ + decimal(n as nat),
    decreases n,
{
    if n < 10 {
        push_char(s, digit_to_char(n as u8));
        assert(decimal(n as nat) == seq![digit_char(n as nat)]);
    } else {
        push_decimal(s, n / 10);
        push_char(s, digit_to_char((n % 10) as u8));
        assert(decimal(n as nat) == decimal((n / 10) as nat).push(digit_char((n % 10) as nat)));
    }
}

/// The text `s` padded with spaces on the right to at least `width` characters.
pub open spec fn pad_right(s: Seq<char>, width: nat) -> Seq<char>
    decreases width,
{
    if s.len() >= width {
        s
    } else {
        pad_right(s, (width - 1) as nat).push(' ')
    }
}

/// Appends the decimal representation of `n`, padded with spaces on the
/// right to `width` characters.
pub fn push_decimal_padded(s: &mut String, n: u128, width: usize)
    ensures
        final(s)@ == old(s)@ + pad_right(decimal(n as nat), width as nat),
{
    let mut t = String::new();
    push_decimal(&mut t, n);
    let len = t.unicode_len();
    assert(t@ =~= decimal(n as nat));
    assert(pad_right(decimal(n as nat), len as nat) == decimal(n as nat));
    let mut padded = t;
    if len < width {
        let mut k: usize = len;
        while k < width
            invariant
                len <= k <= width,
                len == decimal(n as nat).len(),
                padded@ == pad_right(decimal(n as nat), k as nat),
            decreases width - k,
        {
            push_char(&mut padded, ' ');
            k = k + 1;
        }
        s.append(padded.as_str());
    } else {
        proof {
            lemma_pad_right_short(decimal(n as nat), width as nat);
        }
        s.append(padded.as_str());
    }
}

proof fn lemma_pad_right_short(s: Seq<char>, width: nat)
    requires
        s.len() >= width,
    ensures
        pad_right(s, width) == s,
{
}

} // verus!

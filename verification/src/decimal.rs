//! Integers as decimal text, the form in which they appear in messages and
//! in the rendered row lookup table.

use vstd::prelude::*;
use vstd::string::*;

verus! {

/// The character of one decimal digit.
pub open spec fn digit(d: nat) -> char {
    if d == 0 {
        '0'
    } else if d == 1 {
        '1'
    } else if d == 2 {
        '2'
    } else if d == 3 {
        '3'
    } else if d == 4 {
        '4'
    } else if d == 5 {
        '5'
    } else if d == 6 {
        '6'
    } else if d == 7 {
        '7'
    } else if d == 8 {
        '8'
    } else {
        '9'
    }
}

/// A natural number in decimal, without leading zeros.
pub open spec fn decimal(n: nat) -> Seq<char>
    decreases n,
{
    if n < 10 {
        seq![digit(n)]
    } else {
        decimal(n / 10).push(digit(n % 10))
    }
}

/// An integer in decimal, with a minus sign in front of a negative one.
pub open spec fn signed_decimal(v: int) -> Seq<char> {
    if v < 0 {
        seq!['-'] + decimal((-v) as nat)
    } else {
        decimal(v as nat)
    }
}

/// A decimal digit.
pub open spec fn is_digit(c: char) -> bool {
    '0' <= c <= '9'
}

/// The number for which a decimal digit stands.
pub open spec fn digit_value(c: char) -> nat {
    (c as int - '0' as int) as nat
}

/// The number that a text of decimal digits stands for.
pub open spec fn decimal_value(text: Seq<char>) -> nat
    decreases text.len(),
{
    if text.len() == 0 {
        0
    } else {
        decimal_value(text.drop_last()) * 10 + digit_value(text.last())
    }
}

/// The integer that a text of decimal digits stands for, with or without a
/// minus sign in front.
pub open spec fn signed_value(text: Seq<char>) -> int {
    if text.len() > 0 && text[0] == '-' {
        -(decimal_value(text.drop_first()) as int)
    } else {
        decimal_value(text) as int
    }
}

/// A number in decimal is one digit or more, and stands for the number.
pub proof fn lemma_decimal_value(n: nat)
    ensures
        decimal(n).len() > 0,
        forall|i: int| 0 <= i < decimal(n).len() ==> is_digit(#[trigger] decimal(n)[i]),
        decimal_value(decimal(n)) == n,
    decreases n,
{
    if n < 10 {
        assert(decimal(n).drop_last() =~= Seq::<char>::empty());
        assert(decimal_value(decimal(n).drop_last()) == 0);
    } else {
        lemma_decimal_value(n / 10);
        assert(decimal(n).drop_last() =~= decimal(n / 10));
    }
}

/// An integer in decimal is made of digits and at most a minus sign, and
/// stands for the integer.
pub proof fn lemma_signed_value(v: int)
    ensures
        signed_decimal(v).len() > 0,
        forall|i: int|
            0 <= i < signed_decimal(v).len() ==> is_digit(#[trigger] signed_decimal(v)[i])
                || signed_decimal(v)[i] == '-',
        signed_value(signed_decimal(v)) == v,
{
    if v < 0 {
        lemma_decimal_value((-v) as nat);
        assert(signed_decimal(v).drop_first() =~= decimal((-v) as nat));
    } else {
        lemma_decimal_value(v as nat);
        assert(is_digit(decimal(v as nat)[0]));
    }
}

/// The position of the first `c` in a text, or the length of a text
/// without one.
pub open spec fn first_of(text: Seq<char>, c: char) -> int
    decreases text.len(),
{
    if text.len() == 0 || text[0] == c {
        0
    } else {
        1 + first_of(text.drop_first(), c)
    }
}

/// In a text without `c`, followed by nothing or by `c`, the first `c`
/// stands where the text ends.
pub proof fn lemma_first_of(text: Seq<char>, rest: Seq<char>, c: char)
    requires
        forall|i: int| 0 <= i < text.len() ==> #[trigger] text[i] != c,
        rest.len() == 0 || rest[0] == c,
    ensures
        first_of(text + rest, c) == text.len(),
    decreases text.len(),
{
    if text.len() == 0 {
        assert(text + rest =~= rest);
    } else {
        lemma_first_of(text.drop_first(), rest, c);
        assert((text + rest).drop_first() =~= text.drop_first() + rest);
        assert((text + rest)[0] == text[0]);
    }
}

/// The digits with which a text ends.
pub open spec fn trailing_digits(text: Seq<char>) -> Seq<char>
    decreases text.len(),
{
    if text.len() > 0 && is_digit(text.last()) {
        trailing_digits(text.drop_last()).push(text.last())
    } else {
        Seq::empty()
    }
}

/// Digits that follow something else than a digit are the digits with
/// which the whole ends.
pub proof fn lemma_trailing_digits(text: Seq<char>, digits: Seq<char>)
    requires
        text.len() > 0 ==> !is_digit(text.last()),
        forall|i: int| 0 <= i < digits.len() ==> is_digit(#[trigger] digits[i]),
    ensures
        trailing_digits(text + digits) == digits,
    decreases digits.len(),
{
    if digits.len() == 0 {
        assert(text + digits =~= text);
    } else {
        lemma_trailing_digits(text, digits.drop_last());
        assert((text + digits).drop_last() =~= text + digits.drop_last());
        assert((text + digits).last() == digits.last());
        assert(trailing_digits(text + digits) =~= digits);
    }
}

fn digit_text(d: usize) -> (s: &'static str)
    requires
        d < 10,
    ensures
        s@ == seq![digit(d as nat)],
{
    proof {
        reveal_strlit("0");
        reveal_strlit("1");
        reveal_strlit("2");
        reveal_strlit("3");
        reveal_strlit("4");
        reveal_strlit("5");
        reveal_strlit("6");
        reveal_strlit("7");
        reveal_strlit("8");
        reveal_strlit("9");
    }
    let s = if d == 0 {
        "0"
    } else if d == 1 {
        "1"
    } else if d == 2 {
        "2"
    } else if d == 3 {
        "3"
    } else if d == 4 {
        "4"
    } else if d == 5 {
        "5"
    } else if d == 6 {
        "6"
    } else if d == 7 {
        "7"
    } else if d == 8 {
        "8"
    } else {
        "9"
    };
    assert(s@ =~= seq![digit(d as nat)]);
    s
}

/// Appends `n` in decimal to `out`.
pub(crate) fn append_decimal(out: &mut String, n: usize)
    ensures
        final(out)@ == old(out)@ + decimal(n as nat),
    decreases n,
{
    if n >= 10 {
        append_decimal(out, n / 10);
    }
    out.append(digit_text(n % 10));
    assert(out@ =~= old(out)@ + decimal(n as nat));
}

/// Appends `v` in decimal to `out`, with its sign where it is negative.
pub(crate) fn append_signed_decimal(out: &mut String, v: isize)
    ensures
        final(out)@ == old(out)@ + signed_decimal(v as int),
{
    if v < 0 {
        proof {
            reveal_strlit("-");
        }
        out.append("-");
        // -(v + 1) cannot overflow, and the magnitude is one more.
        let magnitude: usize = (-(v + 1)) as usize + 1;
        append_decimal(out, magnitude);
        assert(out@ =~= old(out)@ + signed_decimal(v as int));
    } else {
        append_decimal(out, v as usize);
    }
}

} // verus!

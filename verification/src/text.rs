//! Decimal digits: writing integers and hundredths as text, and reading a
//! run of digits as a number.
use vstd::prelude::*;
use vstd::string::*;

verus! {

/// The character that writes the decimal digit `d`.
pub open spec fn digit_char(d: int) -> char
    recommends
        0 <= d <= 9,
{
    if d == 0 {
        '0'
    } else if d == 1 {
        '1'
    } else if d == 2 {
        '2'
    } else if d == 3 {
        '3'
    } else if d == 4 {
        '4'
    } else if d == 5 {
        '5'
    } else if d == 6 {
        '6'
    } else if d == 7 {
        '7'
    } else if d == 8 {
        '8'
    } else {
        '9'
    }
}

/// The decimal numeral of `n`, without sign or leading zeros: one digit for
/// a number below ten, else the numeral of `n / 10` followed by the last digit.
pub open spec fn decimal_text(n: nat) -> Seq<char>
    decreases n,
{
    if n < 10 {
        seq![digit_char(n as int)]
    } else {
        decimal_text(n / 10).push(digit_char((n % 10) as int))
    }
}

/// The number that a decimal digit stands for; `None` for any other character.
pub open spec fn digit_value(c: char) -> Option<int> {
    if c == '0' {
        Some(0)
    } else if c == '1' {
        Some(1)
    } else if c == '2' {
        Some(2)
    } else if c == '3' {
        Some(3)
    } else if c == '4' {
        Some(4)
    } else if c == '5' {
        Some(5)
    } else if c == '6' {
        Some(6)
    } else if c == '7' {
        Some(7)
    } else if c == '8' {
        Some(8)
    } else if c == '9' {
        Some(9)
    } else {
        None
    }
}

/// Whether every character of `s` is a decimal digit.
pub open spec fn all_digits(s: Seq<char>) -> bool {
    forall|i: int| 0 <= i < s.len() ==> (#[trigger] digit_value(s[i])) is Some
}

/// The number written by a run of decimal digits, the empty run being zero.
pub open spec fn digits_value(s: Seq<char>) -> nat
    decreases s.len(),
{
    if s.len() == 0 {
        0
    } else {
        let last = match digit_value(s.last()) {
            Some(d) => d as nat,
            None => 0,
        };
        digits_value(s.drop_last()) * 10 + last
    }
}

/// Appending a digit to a run multiplies its number by ten and adds the digit.
pub proof fn lemma_digits_push(s: Seq<char>, c: char, d: int)
    requires
        digit_value(c) == Some(d),
    ensures
        digits_value(s.push(c)) == digits_value(s) * 10 + d,
{
    assert(s.push(c).drop_last() =~= s);
}

/// A run of digits with one more digit behind it is a run of digits.
pub proof fn lemma_all_digits_push(s: Seq<char>, c: char)
    requires
        all_digits(s),
        digit_value(c) is Some,
    ensures
        all_digits(s.push(c)),
{
    assert forall|i: int| 0 <= i < s.push(c).len() implies (#[trigger] digit_value(
        s.push(c)[i],
    )) is Some by {
        if i < s.len() {
            assert(s.push(c)[i] == s[i]);
        }
    }
}

/// Any stretch of a run of digits is a run of digits.
pub proof fn lemma_all_digits_subrange(s: Seq<char>, from: int, to: int)
    requires
        all_digits(s),
        0 <= from <= to <= s.len(),
    ensures
        all_digits(s.subrange(from, to)),
{
    assert forall|i: int| 0 <= i < to - from implies (#[trigger] digit_value(
        s.subrange(from, to)[i],
    )) is Some by {
        assert(s.subrange(from, to)[i] == s[from + i]);
    }
}

/// The distance of `v` from zero.
pub open spec fn magnitude(v: int) -> nat {
    if v < 0 {
        (-v) as nat
    } else {
        v as nat
    }
}

/// A figure of `m` hundredths written with two decimal places: a minus sign
/// where `negative` is set, the whole part, a point, and exactly two digits.
pub open spec fn figure_text(negative: bool, m: nat) -> Seq<char> {
    let sign = if negative {
        seq!['-']
    } else {
        Seq::<char>::empty()
    };
    sign + decimal_text(m / 100) + seq![
        '.',
        digit_char(((m % 100) / 10) as int),
        digit_char((m % 10) as int),
    ]
}

/// A count of hundredths written with two decimal places, with a minus sign
/// where the count is negative.
pub open spec fn hundredths_text(v: int) -> Seq<char> {
    figure_text(v < 0, magnitude(v))
}

/// The number of a decimal digit, or `None` for another character.
pub fn digit_of(c: char) -> (d: Option<u8>)
    ensures
        d is Some <==> digit_value(c) is Some,
        d matches Some(v) ==> digit_value(c) == Some(v as int),
{
    match c {
        '0' => Some(0),
        '1' => Some(1),
        '2' => Some(2),
        '3' => Some(3),
        '4' => Some(4),
        '5' => Some(5),
        '6' => Some(6),
        '7' => Some(7),
        '8' => Some(8),
        '9' => Some(9),
        _ => None,
    }
}

/// The one-character text of a decimal digit.
fn digit_str(d: u8) -> (s: &'static str)
    requires
        d < 10,
    ensures
        s@ == seq![digit_char(d as int)],
{
    proof {
        reveal_strlit("0");
        reveal_strlit("1");
        reveal_strlit("2");
        reveal_strlit("3");
        reveal_strlit("4");
        reveal_strlit("5");
        reveal_strlit("6");
        reveal_strlit("7");
        reveal_strlit("8");
        reveal_strlit("9");
    }
    let s = match d {
        0 => "0",
        1 => "1",
        2 => "2",
        3 => "3",
        4 => "4",
        5 => "5",
        6 => "6",
        7 => "7",
        8 => "8",
        _ => "9",
    };
    assert(s@ =~= seq![digit_char(d as int)]);
    s
}

/// Writes `n` as a decimal numeral.
pub fn natural_to_text(n: u128) -> (text: String)
    ensures
        text@ == decimal_text(n as nat),
    decreases n,
{
    if n < 10 {
        String::from_str(digit_str(n as u8))
    } else {
        let mut text = natural_to_text(n / 10);
        text.append(digit_str((n % 10) as u8));
        assert(text@ =~= decimal_text(n as nat));
        text
    }
}

/// The distance of `v` from zero, which always fits the unsigned type.
pub fn magnitude_of(v: i128) -> (m: u128)
    ensures
        m == magnitude(v as int),
{
    if v >= 0 {
        v as u128
    } else {
        (-(v + 1)) as u128 + 1
    }
}

/// Writes a figure of `m` hundredths with two decimal places, with a minus
/// sign where `negative` is set.
pub fn figure_to_text(negative: bool, m: u128) -> (text: String)
    ensures
        text@ == figure_text(negative, m as nat),
{
    proof {
        reveal_strlit("-");
        reveal_strlit(".");
    }
    let mut text = String::new();
    if negative {
        text.append("-");
    }
    let whole = natural_to_text(m / 100);
    text.append(whole.as_str());
    text.append(".");
    text.append(digit_str(((m % 100) / 10) as u8));
    text.append(digit_str((m % 10) as u8));
    assert(text@ =~= figure_text(negative, m as nat));
    text
}

/// Writes a count of hundredths with two decimal places.
pub fn hundredths_to_text(v: i128) -> (text: String)
    ensures
        text@ == hundredths_text(v as int),
{
    figure_to_text(v < 0, magnitude_of(v))
}

/// Appends the decimal numeral of `n` to `text`.
pub fn append_natural(text: &mut String, n: u128)
    ensures
        final(text)@ == old(text)@ + decimal_text(n as nat),
{
    let numeral = natural_to_text(n);
    text.append(numeral.as_str());
}

} // verus!

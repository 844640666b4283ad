//! Closing prices as exact decimal numbers.
//!
//! A price is held as a whole count of millionths of the currency unit, so
//! that comparing prices and measuring a change involve no rounding error.
//!
//! A price is read from any decimal numeral: an optional sign, digits with
//! an optional point among them (at least one digit in all), and an optional
//! exponent, which is `e` or `E`, an optional sign and one or more digits.
//! The words `inf` and `infinity`, in either case of each letter, are read
//! too. Three rules fit what is written into what is held:
//! - a value between two millionths is rounded to the nearer one, a value
//!   halfway between them away from zero;
//! - a value beyond a million million is held as a million million, with
//!   its sign, and so is an infinite one;
//! - any other text writes no number and is no price.
//!
//! A source may also quote `nan`, the mark that stands for no number. Such a
//! quote is read as what it is: it is no price, and it is no failure to read
//! one either.
use vstd::prelude::*;
use vstd::string::*;
use crate::text::{all_digits, digit_of, digit_value, digits_value};
use crate::text::{lemma_all_digits_subrange, lemma_digits_push};

verus! {

/// The number of digits behind the point that a price holds.
pub const FRACTION_DIGITS: usize = 6;

/// The largest price that is held, in millionths: a million million.
pub const MAX_UNITS: u64 = 1_000_000_000_000_000_000;

/// A closing price, in millionths of the currency unit.
#[derive(Clone, Copy, Debug, PartialEq, Eq, Structural)]
pub struct Price {
    pub units: i64,
}

/// A closing price as a source quotes it: a price, or the mark that stands
/// for no number.
#[derive(Clone, Copy, Debug, PartialEq, Eq, Structural)]
pub enum Quote {
    Number(Price),
    NotANumber,
}

/// Whether `c` is a sign.
pub open spec fn is_sign(c: char) -> bool {
    c == '+' || c == '-'
}

/// Whether `c` is the letter given in its small or its capital form.
pub open spec fn same_letter(c: char, small: char, capital: char) -> bool {
    c == small || c == capital
}

/// Whether `body` is one of the two words for an infinite value.
pub open spec fn is_infinity_word(body: Seq<char>) -> bool {
    ||| {
        &&& body.len() == 3
        &&& same_letter(body[0], 'i', 'I')
        &&& same_letter(body[1], 'n', 'N')
        &&& same_letter(body[2], 'f', 'F')
    }
    ||| {
        &&& body.len() == 8
        &&& same_letter(body[0], 'i', 'I')
        &&& same_letter(body[1], 'n', 'N')
        &&& same_letter(body[2], 'f', 'F')
        &&& same_letter(body[3], 'i', 'I')
        &&& same_letter(body[4], 'n', 'N')
        &&& same_letter(body[5], 'i', 'I')
        &&& same_letter(body[6], 't', 'T')
        &&& same_letter(body[7], 'y', 'Y')
    }
}

/// Whether `body` is the mark that stands for no number.
pub open spec fn is_nan_word(body: Seq<char>) -> bool {
    &&& body.len() == 3
    &&& same_letter(body[0], 'n', 'N')
    &&& same_letter(body[1], 'a', 'A')
    &&& same_letter(body[2], 'n', 'N')
}

/// The first position at or after `from` that holds no digit: the end of
/// the run of digits that starts at `from`.
pub open spec fn digits_end(s: Seq<char>, from: int) -> int
    decreases s.len() - from,
{
    if from < 0 || from >= s.len() {
        from
    } else if digit_value(s[from]) is None {
        from
    } else {
        digits_end(s, from + 1)
    }
}

/// An unsigned numeral taken apart: all its digits, the number of them that
/// stand before the point, and the signed value of its exponent.
pub struct Numeral {
    pub digits: Seq<char>,
    pub point: int,
    pub exponent: int,
}

/// Takes an unsigned numeral apart; `None` where `body` is not one.
pub open spec fn numeral_of(body: Seq<char>) -> Option<Numeral> {
    let whole_end = digits_end(body, 0);
    let has_point = whole_end < body.len() && body[whole_end] == '.';
    let fraction_start = if has_point {
        whole_end + 1
    } else {
        whole_end
    };
    let fraction_end = digits_end(body, fraction_start);
    let digits = body.subrange(0, whole_end) + body.subrange(fraction_start, fraction_end);
    if digits.len() == 0 {
        None
    } else if fraction_end == body.len() {
        Some(Numeral { digits, point: whole_end, exponent: 0 })
    } else if !same_letter(body[fraction_end], 'e', 'E') {
        None
    } else {
        let signed = fraction_end + 1 < body.len() && is_sign(body[fraction_end + 1]);
        let start = if signed {
            fraction_end + 2
        } else {
            fraction_end + 1
        };
        let end = digits_end(body, start);
        if end == start || end != body.len() {
            None
        } else {
            let size = digits_value(body.subrange(start, end)) as int;
            let exponent = if signed && body[fraction_end + 1] == '-' {
                -size
            } else {
                size
            };
            Some(Numeral { digits, point: whole_end, exponent })
        }
    }
}

/// A run of `k` zeros.
pub open spec fn zeros(k: nat) -> Seq<char> {
    Seq::new(k, |i: int| '0')
}

/// The digits of a numeral that stand before the place `cut`, where the
/// numeral is taken to go on with zeros behind its last digit.
pub open spec fn kept_digits(digits: Seq<char>, cut: int) -> Seq<char> {
    if cut <= 0 {
        Seq::<char>::empty()
    } else if cut <= digits.len() {
        digits.take(cut)
    } else {
        digits + zeros((cut - digits.len()) as nat)
    }
}

/// Whether the digit at the place `cut` is five or more, so that what
/// stands before it is rounded up.
pub open spec fn rounds_up(digits: Seq<char>, cut: int) -> bool {
    &&& 0 <= cut < digits.len()
    &&& digit_value(digits[cut]) matches Some(d)
    &&& d >= 5
}

/// The number written by the digits before the place `cut`, rounded by the
/// digit at that place.
pub open spec fn rounded_value(digits: Seq<char>, cut: int) -> nat {
    digits_value(kept_digits(digits, cut)) + if rounds_up(digits, cut) {
        1nat
    } else {
        0nat
    }
}

/// `v`, or `cap` where `v` is beyond it.
pub open spec fn capped_at(v: nat, cap: nat) -> nat {
    if v > cap {
        cap
    } else {
        v
    }
}

/// The value of a numeral in millionths: its digits up to the sixth place
/// behind the point as the exponent moves it, rounded by the digit after
/// them, and no more than the largest price.
pub open spec fn numeral_units(numeral: Numeral) -> nat {
    capped_at(
        rounded_value(numeral.digits, numeral.point + numeral.exponent + FRACTION_DIGITS),
        MAX_UNITS as nat,
    )
}

/// The value in millionths of what follows the sign.
pub open spec fn magnitude_units(body: Seq<char>) -> Option<nat> {
    if is_infinity_word(body) {
        Some(MAX_UNITS as nat)
    } else {
        match numeral_of(body) {
            Some(numeral) => Some(numeral_units(numeral)),
            None => None,
        }
    }
}

/// The price that `text` writes, in millionths, or `None` where `text`
/// writes no number. A leading `-` or `+` is the sign of what follows it.
pub open spec fn price_units(text: Seq<char>) -> Option<int> {
    let signed = text.len() > 0 && is_sign(text[0]);
    let body = if signed {
        text.skip(1)
    } else {
        text
    };
    match magnitude_units(body) {
        Some(units) => Some(
            if signed && text[0] == '-' {
                -(units as int)
            } else {
                units as int
            },
        ),
        None => None,
    }
}

/// What `text` quotes: no number where it is the mark for that, with or
/// without a sign before it; else the price that it writes; `None` where it
/// is neither.
pub open spec fn quote_of_text(text: Seq<char>) -> Option<Quote> {
    let signed = text.len() > 0 && is_sign(text[0]);
    let body = if signed {
        text.skip(1)
    } else {
        text
    };
    if is_nan_word(body) {
        Some(Quote::NotANumber)
    } else {
        match price_units(text) {
            Some(units) => Some(Quote::Number(Price { units: units as i64 })),
            None => None,
        }
    }
}

/// Ten to the power `k`.
pub open spec fn pow10(k: nat) -> nat
    decreases k,
{
    if k == 0 {
        1
    } else {
        10 * pow10((k - 1) as nat)
    }
}

/// No price is beyond a million million, on either side of zero.
pub proof fn lemma_price_units_bounded(text: Seq<char>)
    ensures
        price_units(text) matches Some(u) ==> -(MAX_UNITS as int) <= u <= MAX_UNITS as int,
{
}

/// Zeros behind a run of digits multiply its number by a power of ten.
pub proof fn lemma_zeros_scale(s: Seq<char>, k: nat)
    ensures
        digits_value(s + zeros(k)) == digits_value(s) * pow10(k),
    decreases k,
{
    let value = digits_value(s);
    if k == 0 {
        assert(s + zeros(0) =~= s);
        assert(value * 1 == value) by (nonlinear_arith);
    } else {
        let before = (k - 1) as nat;
        lemma_zeros_scale(s, before);
        assert((s + zeros(before)).push('0') =~= s + zeros(k));
        lemma_digits_push(s + zeros(before), '0', 0);
        assert(pow10(k) == 10 * pow10(before));
        assert(value * pow10(before) * 10 == value * (10 * pow10(before))) by (nonlinear_arith);
    }
}

/// A numeral whose digits all stand before the sixth place behind the point
/// is held exactly: its value in millionths is the number of its digits
/// times the power of ten that the places left over make, up to the cap.
pub proof fn lemma_numeral_without_rounding(numeral: Numeral)
    requires
        numeral.point + numeral.exponent + FRACTION_DIGITS >= numeral.digits.len(),
    ensures
        numeral_units(numeral) == capped_at(
            digits_value(numeral.digits) * pow10(
                (numeral.point + numeral.exponent + FRACTION_DIGITS - numeral.digits.len()) as nat,
            ),
            MAX_UNITS as nat,
        ),
{
    let cut = numeral.point + numeral.exponent + FRACTION_DIGITS;
    let spare = (cut - numeral.digits.len()) as nat;
    lemma_zeros_scale(numeral.digits, spare);
    if cut <= 0 {
        assert(numeral.digits + zeros(spare) =~= Seq::<char>::empty());
    } else if cut == numeral.digits.len() {
        assert(numeral.digits.take(cut) =~= numeral.digits + zeros(spare));
    }
}

proof fn lemma_pow10_monotone(a: nat, b: nat)
    requires
        a <= b,
    ensures
        1 <= pow10(a) <= pow10(b),
    decreases b,
{
    if a < b {
        lemma_pow10_monotone(a, (b - 1) as nat);
    } else if a > 0 {
        lemma_pow10_monotone((a - 1) as nat, (a - 1) as nat);
    }
}

proof fn lemma_pow10_19()
    ensures
        pow10(19) == 10_000_000_000_000_000_000,
{
    reveal_with_fuel(pow10, 20);
}

/// Whether the character at `i` is the letter given, small or capital.
fn letter_at(s: &str, i: usize, small: char, capital: char) -> (yes: bool)
    requires
        i < s@.len(),
    ensures
        yes == same_letter(s@[i as int], small, capital),
{
    let c = s.get_char(i);
    c == small || c == capital
}

/// Whether `body`, of `n` characters, is a word for an infinite value.
fn is_infinity(body: &str, n: usize) -> (yes: bool)
    requires
        n == body@.len(),
    ensures
        yes == is_infinity_word(body@),
{
    if n == 3 {
        letter_at(body, 0, 'i', 'I') && letter_at(body, 1, 'n', 'N') && letter_at(
            body,
            2,
            'f',
            'F',
        )
    } else if n == 8 {
        letter_at(body, 0, 'i', 'I') && letter_at(body, 1, 'n', 'N') && letter_at(
            body,
            2,
            'f',
            'F',
        ) && letter_at(body, 3, 'i', 'I') && letter_at(body, 4, 'n', 'N') && letter_at(
            body,
            5,
            'i',
            'I',
        ) && letter_at(body, 6, 't', 'T') && letter_at(body, 7, 'y', 'Y')
    } else {
        false
    }
}

/// Finds the end of the run of digits that starts at `from`.
fn scan_digits(s: &str, n: usize, from: usize) -> (end: usize)
    requires
        n == s@.len(),
        from <= n,
    ensures
        end == digits_end(s@, from as int),
        from <= end <= n,
        all_digits(s@.subrange(from as int, end as int)),
{
    let mut i: usize = from;
    while i < n
        invariant
            n == s@.len(),
            from <= i <= n,
            digits_end(s@, from as int) == digits_end(s@, i as int),
            forall|j: int| from <= j < i ==> (#[trigger] digit_value(s@[j])) is Some,
        ensures
            from <= i <= n,
            digits_end(s@, from as int) == i,
            forall|j: int| from <= j < i ==> (#[trigger] digit_value(s@[j])) is Some,
        decreases n - i,
    {
        match digit_of(s.get_char(i)) {
            None => {
                break ;
            },
            Some(_) => {
                i = i + 1;
            },
        }
    }
    proof {
        let run = s@.subrange(from as int, i as int);
        assert forall|j: int| 0 <= j < run.len() implies (#[trigger] digit_value(run[j])) is Some by {
            assert(run[j] == s@[from + j]);
        }
    }
    i
}

/// Reads the digits from `from` up to `to` behind those already read,
/// keeping the number read at `cap` once it is beyond it.
fn absorb_digits(
    s: &str,
    from: usize,
    to: usize,
    acc: u128,
    cap: u128,
    Ghost(read): Ghost<Seq<char>>,
) -> (out: u128)
    requires
        from <= to <= s@.len(),
        all_digits(s@.subrange(from as int, to as int)),
        1 <= cap <= 1_000_000_000_000_000_000_000_000_000_000_000_000,
        acc == capped_at(digits_value(read), cap as nat),
    ensures
        out == capped_at(digits_value(read + s@.subrange(from as int, to as int)), cap as nat),
{
    let mut i: usize = from;
    let mut out: u128 = acc;
    assert(read + s@.subrange(from as int, from as int) =~= read);
    while i < to
        invariant
            from <= i <= to <= s@.len(),
            all_digits(s@.subrange(from as int, to as int)),
            1 <= cap <= 1_000_000_000_000_000_000_000_000_000_000_000_000,
            out == capped_at(digits_value(read + s@.subrange(from as int, i as int)), cap as nat),
        decreases to - i,
    {
        let c = s.get_char(i);
        assert(s@.subrange(from as int, to as int)[i - from] == c);
        let d: u8 = match digit_of(c) {
            Some(d) => d,
            None => 0,
        };
        proof {
            let before = read + s@.subrange(from as int, i as int);
            lemma_digits_push(before, c, d as int);
            assert(read + s@.subrange(from as int, i + 1) =~= before.push(c));
        }
        let next: u128 = out * 10 + d as u128;
        out = if next > cap {
            cap
        } else {
            next
        };
        i = i + 1;
    }
    out
}

/// The cap on the size of an exponent while it is read. It is beyond the
/// length of any text, so that an exponent at the cap moves every digit out
/// of the range of prices.
const EXPONENT_CAP: u128 = 1_000_000_000_000_000_000_000_000_000_000;

/// Multiplies the number read by ten for each of `spare` places, keeping it
/// at the largest price once it is beyond it.
fn scale_up(acc: u128, spare: u128, Ghost(value): Ghost<nat>, Ghost(places): Ghost<nat>) -> (out:
    u128)
    requires
        acc == capped_at(value, MAX_UNITS as nat),
        spare <= places,
        spare < places ==> spare >= 19,
    ensures
        out == capped_at(value * pow10(places), MAX_UNITS as nat),
{
    let mut out: u128 = acc;
    let mut done: u128 = 0;
    proof {
        assert(value * pow10(0) == value) by (nonlinear_arith)
            requires
                pow10(0) == 1,
        ;
    }
    while done < spare && out != 0 && out < MAX_UNITS as u128
        invariant
            done <= spare,
            out == capped_at(value * pow10(done as nat), MAX_UNITS as nat),
        decreases spare - done,
    {
        proof {
            assert(value * pow10(done as nat) * 10 == value * (10 * pow10(done as nat)))
                by (nonlinear_arith);
        }
        let next: u128 = out * 10;
        out = if next > MAX_UNITS as u128 {
            MAX_UNITS as u128
        } else {
            next
        };
        done = done + 1;
    }
    proof {
        let reached = pow10(done as nat);
        let wanted = pow10(places);
        lemma_pow10_monotone(done as nat, places);
        if out == 0 {
            assert(value == 0) by (nonlinear_arith)
                requires
                    value * reached == 0,
                    reached >= 1,
            ;
            assert(value * wanted == 0) by (nonlinear_arith)
                requires
                    value == 0,
            ;
        } else if out >= MAX_UNITS as u128 {
            assert(value * wanted >= value * reached) by (nonlinear_arith)
                requires
                    wanted >= reached,
            ;
        } else if done < places {
            // Nineteen places or more take any number but zero beyond the cap.
            assert(done == spare);
            lemma_pow10_monotone(19, done as nat);
            lemma_pow10_19();
            if value == 0 {
                assert(value * reached == 0) by (nonlinear_arith)
                    requires
                        value == 0,
                ;
            }
            assert(value * reached >= reached) by (nonlinear_arith)
                requires
                    value >= 1,
            ;
        }
    }
    out
}

/// Where the parts of an unsigned numeral stand in its text.
struct Parts {
    whole_end: usize,
    fraction_start: usize,
    fraction_end: usize,
    falling: bool,
    size: u128,
}

/// Whether `parts` tells where the parts of `numeral` stand in `body`: the
/// two runs of its digits, and the sign and the size of its exponent, the
/// size being kept at the cap.
spec fn parts_of(parts: Parts, body: Seq<char>, numeral: Numeral) -> bool {
    let whole = body.subrange(0, parts.whole_end as int);
    let fraction = body.subrange(parts.fraction_start as int, parts.fraction_end as int);
    &&& parts.whole_end <= parts.fraction_start <= parts.fraction_end <= body.len()
    &&& parts.fraction_start <= parts.whole_end + 1
    &&& all_digits(whole)
    &&& all_digits(fraction)
    &&& numeral.digits == whole + fraction
    &&& numeral.digits.len() >= 1
    &&& numeral.point == parts.whole_end
    &&& parts.falling ==> numeral.exponent <= 0
    &&& !parts.falling ==> numeral.exponent >= 0
    &&& parts.size == capped_at(
        if numeral.exponent < 0 {
            (-numeral.exponent) as nat
        } else {
            numeral.exponent as nat
        },
        EXPONENT_CAP as nat,
    )
}

/// Takes an unsigned numeral of `n` characters apart.
fn take_apart(body: &str, n: usize) -> (found: Option<Parts>)
    requires
        n == body@.len(),
    ensures
        found is Some <==> numeral_of(body@) is Some,
        found matches Some(parts) ==> parts_of(parts, body@, numeral_of(body@).unwrap()),
{
    let whole_end: usize = scan_digits(body, n, 0);
    let has_point = whole_end < n && body.get_char(whole_end) == '.';
    let fraction_start: usize = if has_point {
        whole_end + 1
    } else {
        whole_end
    };
    let fraction_end: usize = scan_digits(body, n, fraction_start);
    let count: usize = whole_end + (fraction_end - fraction_start);
    if count == 0 {
        return None;
    }
    let mut falling = false;
    let mut size: u128 = 0;
    if fraction_end < n {
        let mark = body.get_char(fraction_end);
        if mark != 'e' && mark != 'E' {
            return None;
        }
        let mut start: usize = fraction_end + 1;
        if start < n {
            let sign = body.get_char(start);
            if sign == '-' {
                falling = true;
                start = start + 1;
            } else if sign == '+' {
                start = start + 1;
            }
        }
        let end: usize = scan_digits(body, n, start);
        if end == start || end != n {
            return None;
        }
        size = absorb_digits(body, start, end, 0, EXPONENT_CAP, Ghost(Seq::empty()));
        proof {
            let run = body@.subrange(start as int, end as int);
            assert(Seq::<char>::empty() + run =~= run);
        }
    }
    Some(Parts { whole_end, fraction_start, fraction_end, falling, size })
}

/// Works out the value in millionths of a numeral that was taken apart.
fn weigh(body: &str, parts: Parts, Ghost(numeral): Ghost<Numeral>) -> (units: u64)
    requires
        parts_of(parts, body@, numeral),
    ensures
        units == numeral_units(numeral),
{
    let whole_end: usize = parts.whole_end;
    let fraction_start: usize = parts.fraction_start;
    let count: usize = whole_end + (parts.fraction_end - fraction_start);
    let ghost whole = body@.subrange(0, whole_end as int);
    let ghost fraction = body@.subrange(fraction_start as int, parts.fraction_end as int);
    let ghost digits = numeral.digits;
    let ghost cut = numeral.point + numeral.exponent + FRACTION_DIGITS;
    if parts.falling && parts.size >= whole_end as u128 + 7 {
        // Every digit stands behind the place that decides the rounding.
        assert(cut < 0);
        return 0;
    }
    let place: u128 = if parts.falling {
        whole_end as u128 + 6 - parts.size
    } else {
        whole_end as u128 + 6 + parts.size
    };
    let kept: usize = if place < count as u128 {
        place as usize
    } else {
        count
    };
    let first: usize = if kept < whole_end {
        kept
    } else {
        whole_end
    };
    let second: usize = kept - first;
    proof {
        let run = body@.subrange(0, first as int);
        let rest = body@.subrange(fraction_start as int, fraction_start + second);
        lemma_all_digits_subrange(whole, 0, first as int);
        lemma_all_digits_subrange(fraction, 0, second as int);
        assert(run =~= whole.subrange(0, first as int));
        assert(rest =~= fraction.subrange(0, second as int));
        assert(Seq::<char>::empty() + run =~= run);
        assert(run + rest =~= digits.take(kept as int));
    }
    let head: u128 = absorb_digits(body, 0, first, 0, MAX_UNITS as u128, Ghost(Seq::empty()));
    let read: u128 = absorb_digits(
        body,
        fraction_start,
        fraction_start + second,
        head,
        MAX_UNITS as u128,
        Ghost(body@.subrange(0, first as int)),
    );
    assert(read == capped_at(digits_value(digits.take(kept as int)), MAX_UNITS as nat));
    if place < count as u128 {
        assert(cut == place);
        assert(kept_digits(digits, cut) =~= digits.take(kept as int));
        let at: usize = if kept < whole_end {
            kept
        } else {
            fraction_start + (kept - whole_end)
        };
        let c = body.get_char(at);
        assert(digits[kept as int] == c);
        let up = match digit_of(c) {
            Some(d) => d >= 5,
            None => false,
        };
        assert(up == rounds_up(digits, cut));
        if up && read < MAX_UNITS as u128 {
            (read + 1) as u64
        } else {
            read as u64
        }
    } else {
        let spare: u128 = place - count as u128;
        assert(digits.take(kept as int) =~= digits);
        assert(cut - count >= spare);
        let out: u128 = scale_up(
            read,
            spare,
            Ghost(digits_value(digits)),
            Ghost((cut - count) as nat),
        );
        proof {
            lemma_numeral_without_rounding(numeral);
        }
        out as u64
    }
}

/// Reads an unsigned numeral of `n` characters.
fn parse_numeral(body: &str, n: usize) -> (units: Option<u64>)
    requires
        n == body@.len(),
    ensures
        units is Some <==> numeral_of(body@) is Some,
        units matches Some(u) ==> u == numeral_units(numeral_of(body@).unwrap()),
{
    match take_apart(body, n) {
        None => None,
        Some(parts) => Some(weigh(body, parts, Ghost(numeral_of(body@).unwrap()))),
    }
}

impl Quote {
    /// Reads what a source quotes as a closing price.
    pub fn parse(text: &str) -> (quote: Option<Quote>)
        ensures
            quote == quote_of_text(text@),
    {
        let n: usize = text.unicode_len();
        let start: usize = if n > 0 && (text.get_char(0) == '-' || text.get_char(0) == '+') {
            1
        } else {
            0
        };
        if n - start == 3 && letter_at(text, start, 'n', 'N') && letter_at(
            text,
            start + 1,
            'a',
            'A',
        ) && letter_at(text, start + 2, 'n', 'N') {
            assert(is_nan_word(text@.skip(start as int)));
            assert(text@.skip(0) =~= text@);
            return Some(Quote::NotANumber);
        }
        proof {
            assert(text@.skip(0) =~= text@);
            let body = text@.skip(start as int);
            if body.len() == 3 {
                assert(body[0] == text@[start as int]);
                assert(body[1] == text@[start + 1]);
                assert(body[2] == text@[start + 2]);
            }
            lemma_price_units_bounded(text@);
        }
        match Price::parse(text) {
            Some(price) => Some(Quote::Number(price)),
            None => None,
        }
    }
}

impl Price {
    /// Reads a price from a decimal numeral.
    pub fn parse(text: &str) -> (price: Option<Price>)
        ensures
            price is Some <==> price_units(text@) is Some,
            price matches Some(p) ==> price_units(text@) == Some(p.units as int),
    {
        let n: usize = text.unicode_len();
        let mut falling = false;
        let mut start: usize = 0;
        if n > 0 {
            let sign = text.get_char(0);
            if sign == '-' {
                falling = true;
                start = 1;
            } else if sign == '+' {
                start = 1;
            }
        }
        let body = text.substring_char(start, n);
        assert(body@ =~= if start == 1 {
            text@.skip(1)
        } else {
            text@
        });
        let found = if is_infinity(body, n - start) {
            Some(MAX_UNITS)
        } else {
            parse_numeral(body, n - start)
        };
        match found {
            None => None,
            Some(u) => if falling {
                Some(Price { units: -(u as i64) })
            } else {
                Some(Price { units: u as i64 })
            },
        }
    }
}

} // verus!

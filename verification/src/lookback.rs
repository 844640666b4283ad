//! The length of the lookback window, as the operator asks for it.
use vstd::prelude::*;
use vstd::string::*;
use crate::text::{all_digits, digit_of, digit_value, digits_value, lemma_all_digits_push};

verus! {

/// The window that a run takes where none is asked for.
pub const DEFAULT_DAYS: usize = 5;

/// What is left of `text` without a leading `+`.
pub open spec fn unsigned_part(text: Seq<char>) -> Seq<char> {
    if text.len() > 0 && text[0] == '+' {
        text.skip(1)
    } else {
        text
    }
}

/// The count that `text` writes: an optional `+`, then one or more decimal
/// digits. `None` for any other text.
pub open spec fn count_of_text(text: Seq<char>) -> Option<nat> {
    let digits = unsigned_part(text);
    if digits.len() >= 1 && all_digits(digits) {
        Some(digits_value(digits))
    } else {
        None
    }
}

/// The window for an argument: the count that the argument writes where it
/// writes one that the machine can hold, else five.
pub open spec fn lookback_of(argument: Option<&str>) -> nat {
    match argument {
        Some(text) => match count_of_text(text@) {
            Some(count) => if count <= usize::MAX {
                count
            } else {
                DEFAULT_DAYS as nat
            },
            None => DEFAULT_DAYS as nat,
        },
        None => DEFAULT_DAYS as nat,
    }
}

proof fn lemma_digits_value_grows(s: Seq<char>, k: int)
    requires
        0 <= k <= s.len(),
    ensures
        digits_value(s.take(k)) <= digits_value(s),
    decreases s.len(),
{
    if k == s.len() {
        assert(s.take(k) =~= s);
    } else {
        lemma_digits_value_grows(s.drop_last(), k);
        assert(s.drop_last().take(k) =~= s.take(k));
    }
}

/// Reads the window from the operator's argument: the count that it writes,
/// or five where there is no argument or it writes no count that fits.
pub fn lookback_days(argument: Option<&str>) -> (day: usize)
    ensures
        day == lookback_of(argument),
{
    let text = match argument {
        Some(text) => text,
        None => {
            return DEFAULT_DAYS;
        },
    };
    let n: usize = text.unicode_len();
    let start: usize = if n > 0 && text.get_char(0) == '+' {
        1
    } else {
        0
    };
    let ghost digits = text@.skip(start as int);
    assert(digits =~= unsigned_part(text@));
    if start == n {
        return DEFAULT_DAYS;
    }
    let mut i: usize = start;
    let mut count: usize = 0;
    while i < n
        invariant
            n == text@.len(),
            start <= i <= n,
            start < n,
            argument == Some(text),
            digits == unsigned_part(text@),
            digits == text@.skip(start as int),
            all_digits(digits.take(i - start)),
            count == digits_value(digits.take(i - start)),
        decreases n - i,
    {
        let c = text.get_char(i);
        assert(digits[i - start] == c);
        let ghost read = digits.take(i - start);
        let ghost next = digits.take(i + 1 - start);
        proof {
            assert(next =~= read.push(c));
            assert(next.drop_last() =~= read);
        }
        match digit_of(c) {
            None => {
                assert(digit_value(digits[i - start]) is None);
                return DEFAULT_DAYS;
            },
            Some(d) => {
                let d: usize = d as usize;
                if count > (usize::MAX - d) / 10 {
                    proof {
                        assert(digits_value(next) > usize::MAX);
                        lemma_digits_value_grows(digits, i + 1 - start);
                    }
                    return DEFAULT_DAYS;
                }
                proof {
                    lemma_all_digits_push(read, c);
                }
                count = count * 10 + d;
                i = i + 1;
            },
        }
    }
    assert(digits.take(i - start) =~= digits);
    count
}

} // verus!

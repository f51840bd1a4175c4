//! The settings that are numbers.

use vstd::prelude::*;
use crate::text::chars_of;

verus! {

/// The port of the metrics server where none is set.
pub const DEFAULT_METRICS_PORT: u16 = 9091;

/// The matches that an antenna may have in a minute where no number is set.
pub const DEFAULT_MAX_MATCHES: usize = 15;

/// Whether `c` is a decimal digit.
pub open spec fn is_digit(c: char) -> bool {
    '0' <= c <= '9'
}

/// The number that decimal digits stand for.
pub open spec fn digits_value(s: Seq<char>) -> nat
    decreases s.len(),
{
    if s.len() == 0 {
        0
    } else {
        10 * digits_value(s.drop_last()) + (s.last() as nat - '0' as nat) as nat
    }
}

/// The digits of a number: what follows a plus sign, if it starts with one.
pub open spec fn unsigned_part(s: Seq<char>) -> Seq<char> {
    if s.len() > 0 && s[0] == '+' {
        s.skip(1)
    } else {
        s
    }
}

/// The number that `s` is, if it is one and at most `max`: decimal digits, at least
/// one, behind an optional plus sign.
pub open spec fn number(s: Seq<char>, max: nat) -> Option<nat> {
    let digits = unsigned_part(s);
    if digits.len() > 0 && (forall|i: int| 0 <= i < digits.len() ==> is_digit(#[trigger] digits[i]))
        && digits_value(digits) <= max {
        Some(digits_value(digits))
    } else {
        None
    }
}

/// A number is no smaller than what its first digits stand for.
proof fn lemma_value_grows(s: Seq<char>, k: int)
    requires
        0 <= k <= s.len(),
    ensures
        digits_value(s.take(k)) <= digits_value(s),
    decreases s.len() - k,
{
    if k == s.len() {
        assert(s.take(k) =~= s);
    } else {
        lemma_value_grows(s, k + 1);
        assert(s.take(k + 1).drop_last() =~= s.take(k));
    }
}

/// Reads `s` as a number that is at most `max`.
pub fn parse_number(s: &str, max: u64) -> (result: Option<u64>)
    ensures
        match result {
            Some(n) => number(s@, max as nat) == Some(n as nat),
            None => number(s@, max as nat) is None,
        },
{
    let chars = chars_of(s);
    let start: usize = if chars.len() > 0 && chars[0] == '+' {
        1
    } else {
        0
    };
    let ghost digits = unsigned_part(s@);
    assert(digits =~= chars@.skip(start as int));
    if chars.len() == start {
        return None;
    }
    let mut value: u64 = 0;
    assert(digits.take(0) =~= Seq::empty());
    for i in start..chars.len()
        invariant
            start <= chars.len(),
            digits == unsigned_part(s@),
            digits == chars@.skip(start as int),
            value == digits_value(digits.take(i - start)),
            value <= max,
            forall|j: int| 0 <= j < i - start ==> is_digit(#[trigger] digits[j]),
    {
        let c = chars[i];
        let ghost k = i - start;
        assert(digits[k] == c);
        assert(digits.take(k + 1).drop_last() =~= digits.take(k));
        if c < '0' || '9' < c {
            assert(!is_digit(digits[k]));
            return None;
        }
        let next: u128 = value as u128 * 10 + (c as u32 - '0' as u32) as u128;
        if next > max as u128 {
            proof {
                lemma_value_grows(digits, k + 1);
            }
            return None;
        }
        value = next as u64;
    }
    assert(digits.take(chars.len() - start) =~= digits);
    Some(value)
}

/// The port of the metrics server: what is set if it is a port, and else the default.
pub fn metrics_port(setting: Option<&str>) -> (port: u16)
    ensures
        port as nat == (match setting {
            Some(s) => match number(s@, u16::MAX as nat) {
                Some(n) => n,
                None => DEFAULT_METRICS_PORT as nat,
            },
            None => DEFAULT_METRICS_PORT as nat,
        }),
        setting is None ==> port == 9091,
        setting is Some && number(setting->0@, 65535) is None ==> port == 9091,
        setting is Some && number(setting->0@, 65535) is Some ==> port == number(
            setting->0@,
            65535,
        )->0,
{
    match setting {
        Some(s) => match parse_number(s, 65535) {
            Some(n) => n as u16,
            None => DEFAULT_METRICS_PORT,
        },
        None => DEFAULT_METRICS_PORT,
    }
}

/// The matches that an antenna may have in a minute: what is set if it is a number,
/// and else the default.
pub fn max_matches_per_minute(setting: Option<&str>) -> (max: usize)
    ensures
        max as nat == (match setting {
            Some(s) => match number(s@, usize::MAX as nat) {
                Some(n) => n,
                None => DEFAULT_MAX_MATCHES as nat,
            },
            None => DEFAULT_MAX_MATCHES as nat,
        }),
        setting is None ==> max == 15,
        setting is Some && number(setting->0@, usize::MAX as nat) is None ==> max == 15,
        setting is Some && number(setting->0@, usize::MAX as nat) is Some ==> max == number(
            setting->0@,
            usize::MAX as nat,
        )->0,
{
    match setting {
        Some(s) => match parse_number(s, usize::MAX as u64) {
            Some(n) => n as usize,
            None => DEFAULT_MAX_MATCHES,
        },
        None => DEFAULT_MAX_MATCHES,
    }
}

/// One more digit makes ten times the number, and the digit on top; no digits make zero.
pub proof fn law_digits_count_by_tens(s: Seq<char>, digit: char)
    requires
        48 <= digit as u32 <= 57,
    ensures
        digits_value(Seq::empty()) == 0,
        digits_value(s.push(digit)) == 10 * digits_value(s) + (digit as u32 - 48),
{
    assert(s.push(digit).drop_last() =~= s);
}

/// Digits are read as the number that they stand for if it is at most `max`, with a plus
/// sign before them or without one.
pub proof fn law_digits_are_read(digits: Seq<char>, max: nat)
    requires
        digits.len() > 0,
        forall|i: int| 0 <= i < digits.len() ==> '0' <= #[trigger] digits[i] <= '9',
    ensures
        number(digits, max) == (if digits_value(digits) <= max {
            Some(digits_value(digits))
        } else {
            None
        }),
        number(seq!['+'] + digits, max) == number(digits, max),
{
    assert('0' <= digits[0] <= '9');
    assert((seq!['+'] + digits).skip(1) =~= digits);
    assert forall|i: int| 0 <= i < digits.len() implies is_digit(#[trigger] digits[i]) by {
        assert('0' <= digits[i] <= '9');
    }
}

/// Nothing else is read as a number: not a text without digits, nor one with any character
/// that is no digit, but for a plus sign at the start.
pub proof fn law_only_digits_are_read(s: Seq<char>, max: nat)
    requires
        s.len() == 0 || s == seq!['+'] || exists|i: int|
            0 <= i < s.len() && !('0' <= #[trigger] s[i] <= '9') && !(i == 0 && s[i] == '+'),
    ensures
        number(s, max) is None,
{
    let digits = unsigned_part(s);
    if s.len() > 0 && s != seq!['+'] {
        let i = choose|i: int|
            0 <= i < s.len() && !('0' <= #[trigger] s[i] <= '9') && !(i == 0 && s[i] == '+');
        if s[0] == '+' {
            assert(!is_digit(digits[i - 1]));
        } else {
            assert(!is_digit(digits[i]));
        }
    }
}

} // verus!

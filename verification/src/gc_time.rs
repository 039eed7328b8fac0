//! The two clocks of garbage collection: the wall-clock reading a pass stamps stale roots with,
//! and the TTL a stale root has to exceed before it is collected.
use std::time::{Duration, SystemTime, UNIX_EPOCH};
use vstd::prelude::*;

verus! {

#[verifier::external_type_specification]
#[verifier::external_body]
pub struct ExSystemTime(SystemTime);

/// Reads the wall clock with `std::time::SystemTime::now`. Nothing is claimed of the reading.
#[verifier::external_body]
fn system_time_now() -> SystemTime {
    SystemTime::now()
}

/// The time from the Unix epoch to `t`, with `SystemTime::duration_since(UNIX_EPOCH)`; `None`
/// where std reports `t` to be earlier than the epoch. Nothing is claimed of the duration.
#[verifier::external_body]
fn duration_since_unix_epoch(t: &SystemTime) -> Option<Duration> {
    t.duration_since(UNIX_EPOCH).ok()
}

/// The whole milliseconds in `d`, with `Duration::as_millis`. The duration is opaque here, so
/// nothing is claimed of the number.
#[verifier::external_body]
fn duration_as_millis(d: &Duration) -> u128 {
    d.as_millis()
}

/// Milliseconds since the epoch as stored in a stale root: truncated to `u64`, and 0 for a clock
/// before the epoch.
pub open spec fn epoch_millis(since_epoch_ms: Option<u128>) -> u64 {
    match since_epoch_ms {
        Some(ms) => ms as u64,
        None => 0,
    }
}

/// Converts a reading of the clock, in milliseconds since the epoch (`None` before it), to the
/// `u64` a pass stamps roots with.
pub fn epoch_millis_to_u64(since_epoch_ms: Option<u128>) -> (ms: u64)
    ensures
        ms == epoch_millis(since_epoch_ms),
{
    match since_epoch_ms {
        Some(ms) => ms as u64,
        None => 0,
    }
}

/// Wall-clock now as millis since the Unix epoch (0 before the epoch). The reading itself comes
/// from the system clock; nothing is promised of it.
pub fn now_ms() -> u64 {
    let now = system_time_now();
    let since_epoch = match duration_since_unix_epoch(&now) {
        Some(d) => Some(duration_as_millis(&d)),
        None => None,
    };
    epoch_millis_to_u64(since_epoch)
}

pub open spec fn is_ascii_digit(c: char) -> bool {
    '0' <= c && c <= '9'
}

/// The value of a string of decimal digits.
pub open spec fn decimal_value(digits: Seq<char>) -> int
    decreases digits.len(),
{
    if digits.len() == 0 {
        0
    } else {
        decimal_value(digits.drop_last()) * 10 + (digits.last() as int - '0' as int)
    }
}

/// The text after an optional leading `+`.
pub open spec fn unsigned_digits(text: Seq<char>) -> Seq<char> {
    if text.len() > 0 && text[0] == '+' {
        text.drop_first()
    } else {
        text
    }
}

/// Whether every character is an ASCII digit.
pub open spec fn all_ascii_digits(digits: Seq<char>) -> bool {
    forall|i: int| 0 <= i < digits.len() ==> is_ascii_digit(#[trigger] digits[i])
}

/// What `u64::from_str` accepts, as std documents it: an optional `+` followed by one or more
/// ASCII digits whose value fits in a `u64`.
pub open spec fn parsed_u64(text: Seq<char>) -> Option<u64> {
    let digits = unsigned_digits(text);
    if digits.len() > 0 && all_ascii_digits(digits) && decimal_value(digits) <= u64::MAX {
        Some(decimal_value(digits) as u64)
    } else {
        None
    }
}

/// A string of digits is worth at least as much as any of its prefixes, and nothing negative.
proof fn lemma_decimal_value_grows(digits: Seq<char>, k: int)
    requires
        0 <= k <= digits.len(),
        all_ascii_digits(digits),
    ensures
        0 <= decimal_value(digits.take(k)) <= decimal_value(digits),
    decreases digits.len(),
{
    if k == digits.len() {
        assert(digits.take(k) =~= digits);
        if digits.len() > 0 {
            let init = digits.drop_last();
            assert(all_ascii_digits(init)) by {
                assert forall|i: int| 0 <= i < init.len() implies is_ascii_digit(#[trigger] init[i]) by {
                    assert(init[i] == digits[i]);
                }
            }
            lemma_decimal_value_grows(init, init.len() as int);
            assert(init.take(init.len() as int) =~= init);
            assert(is_ascii_digit(digits[digits.len() - 1]));
        }
    } else {
        let init = digits.drop_last();
        assert(all_ascii_digits(init)) by {
            assert forall|i: int| 0 <= i < init.len() implies is_ascii_digit(#[trigger] init[i]) by {
                assert(init[i] == digits[i]);
            }
        }
        lemma_decimal_value_grows(init, k);
        lemma_decimal_value_grows(init, init.len() as int);
        assert(init.take(k) =~= digits.take(k));
        assert(init.take(init.len() as int) =~= init);
        assert(is_ascii_digit(digits[digits.len() - 1]));
    }
}

/// Parses `text` as `u64::from_str` does: an optional `+` sign followed by only digits, with no
/// other character (whitespace included), and a value in range; any other text gives `None`.
fn parse_u64(text: &str) -> (value: Option<u64>)
    ensures
        value == parsed_u64(text@),
{
    let ghost s = text@;
    let ghost plus = s.len() > 0 && s[0] == '+';
    let ghost digits = unsigned_digits(s);
    let ghost mut k: int = 0;
    let mut value: u64 = 0;
    let mut first = true;
    let mut any_digit = false;
    for c in it: text.chars()
        invariant
            it.seq() == s,
            s == text@,
            plus == (s.len() > 0 && s[0] == '+'),
            digits == unsigned_digits(s),
            first == (it.index() == 0),
            any_digit == (k > 0),
            k + (if plus && it.index() > 0 { 1int } else { 0int }) == it.index(),
            0 <= k <= digits.len(),
            all_ascii_digits(digits.take(k)),
            value == decimal_value(digits.take(k)),
    {
        let at_start = first;
        first = false;
        if !(at_start && c == '+') {
            assert(digits[k] == c);
            if !('0' <= c && c <= '9') {
                assert(!all_ascii_digits(digits));
                return None;
            }
            let digit = (c as u32 - '0' as u32) as u64;
            assert(digits.take(k + 1).drop_last() =~= digits.take(k));
            assert(all_ascii_digits(digits.take(k + 1))) by {
                assert forall|j: int| 0 <= j < k + 1 implies is_ascii_digit(
                    #[trigger] digits.take(k + 1)[j],
                ) by {
                    if j < k {
                        assert(digits.take(k + 1)[j] == digits.take(k)[j]);
                    }
                }
            }
            let next = match value.checked_mul(10) {
                Some(tens) => tens.checked_add(digit),
                None => None,
            };
            match next {
                Some(n) => {
                    value = n;
                    any_digit = true;
                    proof {
                        k = k + 1;
                    }
                },
                None => {
                    proof {
                        if all_ascii_digits(digits) {
                            lemma_decimal_value_grows(digits, k + 1);
                        }
                    }
                    return None;
                },
            }
        }
    }
    assert(k == digits.len());
    assert(digits.take(k) =~= digits);
    if any_digit {
        Some(value)
    } else {
        None
    }
}

/// The TTL a stale root has to exceed, in milliseconds.
pub open spec fn resolved_gc_root_ttl(
    override_ms: u64,
    env_value: Option<Seq<char>>,
    default_ttl_ms: u64,
) -> u64 {
    if override_ms != u64::MAX {
        override_ms
    } else {
        match env_value {
            Some(text) => match parsed_u64(text) {
                Some(ms) => ms,
                None => default_ttl_ms,
            },
            None => default_ttl_ms,
        }
    }
}

/// The GC root TTL for a pass, in milliseconds. Precedence: the per-backend override
/// (`u64::MAX` means none), then the value of the TTL environment variable when it parses as a
/// `u64` (`env_value` is `None` when the variable is unset or not unicode), then the default.
pub fn gc_root_ttl(override_ms: u64, env_value: Option<&str>, default_ttl_ms: u64) -> (ttl_ms: u64)
    ensures
        ttl_ms == resolved_gc_root_ttl(
            override_ms,
            match env_value {
                Some(text) => Some(text@),
                None => None,
            },
            default_ttl_ms,
        ),
{
    if override_ms != u64::MAX {
        return override_ms;
    }
    match env_value {
        Some(text) => match parse_u64(text) {
            Some(ms) => ms,
            None => default_ttl_ms,
        },
        None => default_ttl_ms,
    }
}

/// An override, once set, wins over the environment and the default.
pub proof fn law_override_wins(override_ms: u64, env_value: Option<Seq<char>>, default_ttl_ms: u64)
    requires
        override_ms != u64::MAX,
    ensures
        resolved_gc_root_ttl(override_ms, env_value, default_ttl_ms) == override_ms,
{
}

/// Text that is not a number never changes the TTL: it falls back to the default.
pub proof fn law_unparsable_env_falls_back(text: Seq<char>, default_ttl_ms: u64)
    requires
        parsed_u64(text) is None,
    ensures
        resolved_gc_root_ttl(u64::MAX, Some(text), default_ttl_ms) == default_ttl_ms,
{
}

} // verus!

use vstd::prelude::*;

use crate::text::{chars_of, trim_chars, trimmed};

verus! {

/// The interval that an empty duration stands for: ten minutes.
pub const DEFAULT_INTERVAL_SECS: u64 = 600;

pub open spec fn is_digit(c: char) -> bool {
    '0' <= c && c <= '9'
}

/// The value of a run of decimal digits.
pub open spec fn digits_value(s: Seq<char>) -> int
    decreases s.len(),
{
    if s.len() == 0 {
        0
    } else {
        digits_value(s.drop_last()) * 10 + (s.last() as int - '0' as int)
    }
}

/// The text without one leading `+`.
pub open spec fn unsigned_part(s: Seq<char>) -> Seq<char> {
    if s.len() > 0 && s[0] == '+' {
        s.drop_first()
    } else {
        s
    }
}

pub open spec fn all_digits(d: Seq<char>) -> bool {
    forall|i: int| 0 <= i < d.len() ==> is_digit(#[trigger] d[i])
}

/// What `u64::from_str` reads, before its range check: an optional `+`
/// and at least one decimal digit.
pub open spec fn number_of(s: Seq<char>) -> Option<int> {
    let d = unsigned_part(s);
    if d.len() > 0 && all_digits(d) {
        Some(digits_value(d))
    } else {
        None
    }
}

/// Seconds in one unit. `s`, `m` and `h` always; `d`, `w`, `M` (thirty
/// days) and `y` (365 days) only where `long_units` is set, as for the
/// lifetime of a secret.
pub open spec fn unit_secs(c: char, long_units: bool) -> Option<int> {
    if c == 's' {
        Some(1)
    } else if c == 'm' {
        Some(60)
    } else if c == 'h' {
        Some(3600)
    } else if long_units && c == 'd' {
        Some(86400)
    } else if long_units && c == 'w' {
        Some(604800)
    } else if long_units && c == 'M' {
        Some(2592000)
    } else if long_units && c == 'y' {
        Some(31536000)
    } else {
        None
    }
}

/// How a duration text reads: after trimming, empty means the default
/// interval; otherwise a number followed by one unit letter.
pub open spec fn duration_reading(s: Seq<char>, long_units: bool) -> Result<int, DurationError> {
    let t = trimmed(s);
    if t.len() == 0 {
        Ok(DEFAULT_INTERVAL_SECS as int)
    } else if unit_secs(t.last(), long_units) is None {
        Err(DurationError::InvalidUnit)
    } else {
        match number_of(t.drop_last()) {
            None => Err(DurationError::InvalidNumber),
            Some(n) => if n > u64::MAX {
                Err(DurationError::InvalidNumber)
            } else if n * unit_secs(t.last(), long_units)->0 > u64::MAX {
                Err(DurationError::TooLarge)
            } else {
                Ok(n * unit_secs(t.last(), long_units)->0)
            },
        }
    }
}

/// Why a duration text was refused.
#[derive(Debug, Clone, Copy, PartialEq, Eq, Structural)]
pub enum DurationError {
    /// The last character is no known unit.
    InvalidUnit,
    /// What stands before the unit is no decimal number that fits in 64 bits.
    InvalidNumber,
    /// The number of seconds does not fit in 64 bits.
    TooLarge,
}

fn unit_of(c: char, long_units: bool) -> (r: Option<u64>)
    ensures
        r matches Some(k) ==> unit_secs(c, long_units) == Some(k as int),
        r is None ==> unit_secs(c, long_units) is None,
{
    if c == 's' {
        Some(1)
    } else if c == 'm' {
        Some(60)
    } else if c == 'h' {
        Some(3600)
    } else if long_units && c == 'd' {
        Some(86400)
    } else if long_units && c == 'w' {
        Some(604800)
    } else if long_units && c == 'M' {
        Some(2592000)
    } else if long_units && c == 'y' {
        Some(31536000)
    } else {
        None
    }
}

proof fn lemma_digits_value_nonneg(s: Seq<char>)
    requires
        forall|i: int| 0 <= i < s.len() ==> is_digit(#[trigger] s[i]),
    ensures
        digits_value(s) >= 0,
    decreases s.len(),
{
    if s.len() > 0 {
        let t = s.drop_last();
        assert forall|i: int| 0 <= i < t.len() implies is_digit(#[trigger] t[i]) by {
            assert(t[i] == s[i]);
        }
        lemma_digits_value_nonneg(t);
    }
}

/// Reads the number that the characters `s[start..end]` spell, as
/// `u64::from_str` does; `None` where they spell none or it does not fit.
fn read_number(s: &Vec<char>, end: usize) -> (r: Option<u64>)
    requires
        end <= s@.len(),
    ensures
        r matches Some(v) ==> number_of(s@.subrange(0, end as int)) == Some(v as int),
        r is None ==> (number_of(s@.subrange(0, end as int)) is None || number_of(
            s@.subrange(0, end as int),
        )->0 > u64::MAX),
{
    let ghost all = s@.subrange(0, end as int);
    assert(end > 0 ==> all[0] == s@[0]);
    let start: usize = if end > 0 && s[0] == '+' {
        1
    } else {
        0
    };
    let ghost d = unsigned_part(all);
    assert(d =~= s@.subrange(start as int, end as int));
    if start == end {
        return None;
    }
    let mut v: u64 = 0;
    let mut big = false;
    let mut i: usize = start;
    while i < end
        invariant
            start <= i <= end <= s@.len(),
            d == s@.subrange(start as int, end as int),
            all == s@.subrange(0, end as int),
            d == unsigned_part(all),
            forall|j: int| start <= j < i ==> is_digit(#[trigger] s@[j]),
            !big ==> v as int == digits_value(s@.subrange(start as int, i as int)),
            big ==> digits_value(s@.subrange(start as int, i as int)) > u64::MAX,
        decreases end - i,
    {
        let c = s[i];
        if !('0' <= c && c <= '9') {
            assert(!is_digit(d[i - start]));
            assert(number_of(all) is None);
            return None;
        }
        let ghost prev = s@.subrange(start as int, i as int);
        let ghost next = s@.subrange(start as int, i + 1);
        assert(next.drop_last() =~= prev);
        let dv = (c as u32 - '0' as u32) as u64;
        proof {
            assert forall|j: int| 0 <= j < prev.len() implies is_digit(#[trigger] prev[j]) by {
                assert(prev[j] == s@[start + j]);
            }
            lemma_digits_value_nonneg(prev);
        }
        if big {
        } else if v > (u64::MAX - dv) / 10 {
            big = true;
            assert(v * 10 + dv > u64::MAX) by (nonlinear_arith)
                requires
                    v > (u64::MAX - dv) / 10,
                    dv <= 9,
            ;
        } else {
            assert(v * 10 + dv <= u64::MAX) by (nonlinear_arith)
                requires
                    v <= (u64::MAX - dv) / 10,
                    dv <= 9,
            ;
            v = v * 10 + dv;
        }
        i += 1;
    }
    assert(s@.subrange(start as int, end as int) =~= d);
    assert forall|j: int| 0 <= j < d.len() implies is_digit(#[trigger] d[j]) by {
        assert(d[j] == s@[start + j]);
    }
    if big {
        None
    } else {
        Some(v)
    }
}

fn parse_duration_units(duration_str: &str, long_units: bool) -> (r: Result<u64, DurationError>)
    ensures
        r matches Ok(v) ==> duration_reading(duration_str@, long_units) == Ok::<int, DurationError>(
            v as int,
        ),
        r matches Err(e) ==> duration_reading(duration_str@, long_units) == Err::<
            int,
            DurationError,
        >(e),
{
    let all = chars_of(duration_str);
    let t = trim_chars(&all);
    if t.len() == 0 {
        return Ok(DEFAULT_INTERVAL_SECS);
    }
    let last = t[t.len() - 1];
    let unit = match unit_of(last, long_units) {
        Some(k) => k,
        None => {
            return Err(DurationError::InvalidUnit);
        },
    };
    assert(t@.subrange(0, t@.len() - 1) =~= t@.drop_last());
    match read_number(&t, t.len() - 1) {
        None => Err(DurationError::InvalidNumber),
        Some(n) => {
            if n > u64::MAX / unit {
                assert(n * unit > u64::MAX) by (nonlinear_arith)
                    requires
                        n > u64::MAX / unit,
                        unit > 0,
                ;
                Err(DurationError::TooLarge)
            } else {
                assert(n * unit <= u64::MAX) by (nonlinear_arith)
                    requires
                        n <= u64::MAX / unit,
                        unit > 0,
                ;
                Ok(n * unit)
            }
        },
    }
}

/// What `u64::from_str` returns for a text.
pub open spec fn u64_of(s: Seq<char>) -> Option<u64> {
    match number_of(s) {
        Some(n) => if n <= u64::MAX {
            Some(n as u64)
        } else {
            None
        },
        None => None,
    }
}

/// Reads a decimal number as `u64::from_str` does.
pub fn parse_u64(s: &str) -> (r: Option<u64>)
    ensures
        r == u64_of(s@),
{
    let c = chars_of(s);
    assert(c@.subrange(0, c@.len() as int) =~= c@);
    read_number(&c, c.len())
}

/// Reads a polling interval such as `5m`, `1h` or `10s` as seconds; an
/// empty (or blank) text means ten minutes.
pub fn parse_duration(duration_str: &str) -> (r: Result<u64, DurationError>)
    ensures
        r matches Ok(v) ==> duration_reading(duration_str@, false) == Ok::<int, DurationError>(
            v as int,
        ),
        r matches Err(e) ==> duration_reading(duration_str@, false) == Err::<int, DurationError>(
            e,
        ),
{
    parse_duration_units(duration_str, false)
}

/// Reads the relative lifetime of a secret, such as `30d`, `2w`, `6M` or
/// `1y`, as seconds; it also takes the units of `parse_duration`.
pub fn parse_ttl_duration(ttl: &str) -> (r: Result<u64, DurationError>)
    ensures
        r matches Ok(v) ==> duration_reading(ttl@, true) == Ok::<int, DurationError>(v as int),
        r matches Err(e) ==> duration_reading(ttl@, true) == Err::<int, DurationError>(e),
{
    parse_duration_units(ttl, true)
}

/// The interval that a polling configuration falls back to.
pub fn default_poll_interval() -> (r: String)
    ensures
        r@ == seq!['1', '0', 'm'],
{
    let r = String::from_str("10m");
    proof {
        reveal_strlit("10m");
    }
    r
}

} // verus!

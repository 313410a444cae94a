//! Exchange time: exact reading of RFC 3339 stamps (UTC).

use crate::text::{all_digits, chars_of, is_digit, value};
use vstd::prelude::*;
use vstd::string::StringExecFns;

verus! {

/// The integer that `t` writes: decimal digits, with an optional sign.
pub open spec fn signed(t: Seq<char>) -> Option<int> {
    let negative = t.len() > 0 && t[0] == '-';
    let digits = if t.len() > 0 && (t[0] == '-' || t[0] == '+') {
        t.skip(1)
    } else {
        t
    };
    if digits.len() == 0 || !all_digits(digits) {
        None
    } else if negative {
        Some(-value(digits))
    } else {
        Some(value(digits))
    }
}

/// Days from 1970-01-01 to a date of the proleptic Gregorian calendar, counted
/// in eras of 400 years that begin in March.
pub open spec fn days_from_civil(y: int, mo: int, d: int) -> int {
    let yy = if mo <= 2 {
        y - 1
    } else {
        y
    };
    let era = yy / 400;
    let yoe = yy - era * 400;
    let doy = (153 * ((mo + 9) % 12) + 2) / 5 + d - 1;
    let doe = yoe * 365 + yoe / 4 - yoe / 100 + doy;
    era * 146_097 + doe - 719_468
}

/// The milliseconds of a fraction of a second: its first three characters.
pub open spec fn fraction_ms(frac: Seq<char>) -> Option<int> {
    let head = if frac.len() < 3 {
        frac
    } else {
        frac.take(3)
    };
    match signed(head) {
        None => None,
        Some(v) => Some(
            if head.len() == 1 {
                v * 100
            } else if head.len() == 2 {
                v * 10
            } else {
                v
            },
        ),
    }
}

/// `t` has the outline of a stamp: its separators, and a final `Z`.
pub open spec fn stamp_shape(t: Seq<char>) -> bool {
    &&& t.len() >= 20
    &&& t[4] == '-'
    &&& t[7] == '-'
    &&& t[10] == 'T'
    &&& t[t.len() - 1] == 'Z'
    &&& (t[13] as u32) < 128
    &&& (t[16] as u32) < 128
}

/// The time of day and date joined, in ms.
pub open spec fn joined_ms(days: int, h: int, mi: int, se: int, ms: int) -> Option<int> {
    let total = (((days * 24 + h) * 60 + mi) * 60 + se) * 1000 + ms;
    if total < 0 {
        None
    } else {
        Some(total)
    }
}

/// The days of the date at the front of a stamp.
pub open spec fn stamp_days(t: Seq<char>) -> Option<int> {
    match (signed(t.subrange(0, 4)), signed(t.subrange(5, 7)), signed(t.subrange(8, 10))) {
        (Some(y), Some(mo), Some(d)) => Some(days_from_civil(y, mo, d)),
        _ => None,
    }
}

/// The milliseconds written in a stamp after its seconds.
pub open spec fn stamp_fraction(t: Seq<char>) -> Option<int> {
    if t[19] == '.' {
        fraction_ms(t.subrange(20, t.len() - 1))
    } else {
        Some(0)
    }
}

/// The UNIX time in ms of the stamp `t`, if it is one.
pub open spec fn stamp_ms(t: Seq<char>) -> Option<int> {
    if !stamp_shape(t) {
        None
    } else {
        match (
            stamp_days(t),
            signed(t.subrange(11, 13)),
            signed(t.subrange(14, 16)),
            signed(t.subrange(17, 19)),
            stamp_fraction(t),
        ) {
            (Some(days), Some(h), Some(mi), Some(se), Some(ms)) => joined_ms(days, h, mi, se, ms),
            _ => None,
        }
    }
}

/// Reads the signed integer in `b[from..to]`.
fn read_signed(b: &Vec<char>, from: usize, to: usize) -> (r: Option<i64>)
    requires
        from <= to <= b@.len(),
        to - from <= 4,
    ensures
        match r {
            Some(v) => signed(b@.subrange(from as int, to as int)) == Some(v as int) && -9_999 <= v
                <= 9_999,
            None => signed(b@.subrange(from as int, to as int)) is None,
        },
{
    let ghost t = b@.subrange(from as int, to as int);
    let mut i: usize = from;
    let mut negative = false;
    if i < to && (b[i] == '-' || b[i] == '+') {
        negative = b[i] == '-';
        i += 1;
    }
    let start: usize = i;
    let ghost digits = b@.subrange(start as int, to as int);
    proof {
        if start > from {
            assert(t[0] == b@[from as int]);
            assert(digits =~= t.skip(1));
        } else {
            if from < to {
                assert(t[0] == b@[from as int]);
            }
            assert(digits =~= t);
        }
    }
    if i == to {
        return None;
    }
    let mut v: i64 = 0;
    assert(digits.take(0) =~= Seq::<char>::empty());
    assert(value(Seq::<char>::empty()) == 0);
    while i < to
        invariant
            from <= start <= i <= to <= b@.len(),
            to - from <= 4,
            t == b@.subrange(from as int, to as int),
            digits == b@.subrange(start as int, to as int),
            negative == (t[0] == '-'),
            start > from ==> (t[0] == '-' || t[0] == '+') && digits == t.skip(1),
            start == from ==> t[0] != '-' && t[0] != '+' && digits == t,
            from < to,
            digits.len() > 0,
            v == value(digits.take(i - start)),
            forall|j: int| 0 <= j < i - start ==> is_digit(#[trigger] digits[j]),
            0 <= v,
            i - start == 0 ==> v < 1,
            i - start == 1 ==> v < 10,
            i - start == 2 ==> v < 100,
            i - start == 3 ==> v < 1_000,
            i - start == 4 ==> v < 10_000,
        decreases to - i,
    {
        let c = b[i];
        assert(c == digits[i - start]);
        if !(c >= '0' && c <= '9') {
            assert(!is_digit(digits[i - start]));
            return None;
        }
        proof {
            let u = digits.take(i - start + 1);
            assert(u.drop_last() =~= digits.take(i - start));
            assert(u.last() == c);
        }
        let d: i64 = (c as u32 - 48) as i64;
        v = v * 10 + d;
        i += 1;
    }
    assert(digits.take(i - start) =~= digits);
    if negative {
        Some(-v)
    } else {
        Some(v)
    }
}

/// The milliseconds in the fraction `b[20..n-1]`.
fn read_fraction(b: &Vec<char>) -> (r: Option<i64>)
    requires
        b@.len() >= 21,
    ensures
        match r {
            Some(v) => fraction_ms(b@.subrange(20, b@.len() - 1)) == Some(v as int) && -999_900
                <= v <= 999_900,
            None => fraction_ms(b@.subrange(20, b@.len() - 1)) is None,
        },
{
    let n: usize = b.len() - 1;
    let end: usize = if n - 20 < 3 {
        n
    } else {
        23
    };
    proof {
        let frac = b@.subrange(20, n as int);
        let head = if frac.len() < 3 {
            frac
        } else {
            frac.take(3)
        };
        assert(head =~= b@.subrange(20, end as int));
    }
    match read_signed(b, 20, end) {
        None => None,
        Some(v) => Some(
            if end == 21 {
                v * 100
            } else if end == 22 {
                v * 10
            } else {
                v
            },
        ),
    }
}

/// Days from 1970-01-01 to a date.
fn civil_days(y: i64, mo: i64, d: i64) -> (r: i64)
    requires
        -9_999 <= y <= 9_999,
        -9_999 <= mo <= 9_999,
        -9_999 <= d <= 9_999,
    ensures
        r == days_from_civil(y as int, mo as int, d as int),
        -6_000_000 <= r <= 6_000_000,
{
    let yy: i64 = if mo <= 2 {
        y - 1
    } else {
        y
    };
    // Shifted by whole periods so that every division is on a non-negative number.
    let era: i64 = (yy + 40_000) / 400 - 100;
    assert(era == yy as int / 400);
    assert(-26 <= era <= 25);
    let yoe: i64 = yy - era * 400;
    assert(0 <= yoe < 400);
    let mp: i64 = (mo + 9 + 12_000) % 12;
    assert(mp == (mo + 9) % 12);
    let doy: i64 = (153 * mp + 2) / 5 + d - 1;
    let doe: i64 = yoe * 365 + yoe / 4 - yoe / 100 + doy;
    era * 146_097 + doe - 719_468
}

/// The days of the date at the front of a stamp.
fn read_days(b: &Vec<char>) -> (r: Option<i64>)
    requires
        b@.len() >= 20,
    ensures
        match r {
            Some(v) => stamp_days(b@) == Some(v as int) && -6_000_000 <= v <= 6_000_000,
            None => stamp_days(b@) is None,
        },
{
    match (read_signed(b, 0, 4), read_signed(b, 5, 7), read_signed(b, 8, 10)) {
        (Some(y), Some(mo), Some(d)) => Some(civil_days(y, mo, d)),
        _ => None,
    }
}

/// The UNIX time in ms of the characters of a stamp.
fn read_stamp(b: &Vec<char>) -> (r: Option<u64>)
    ensures
        match r {
            Some(v) => stamp_ms(b@) == Some(v as int),
            None => stamp_ms(b@) is None,
        },
{
    if b.len() < 20 || b[4] != '-' || b[7] != '-' || b[10] != 'T' || b[b.len() - 1] != 'Z'
        || b[13] as u32 >= 128 || b[16] as u32 >= 128 {
        return None;
    }
    let ms: Option<i64> = if b[19] == '.' {
        read_fraction(b)
    } else {
        Some(0)
    };
    match (
        read_days(b),
        read_signed(b, 11, 13),
        read_signed(b, 14, 16),
        read_signed(b, 17, 19),
        ms,
    ) {
        (Some(days), Some(h), Some(mi), Some(se), Some(ms)) => {
            let total: i64 = (((days * 24 + h) * 60 + mi) * 60 + se) * 1000 + ms;
            if total < 0 {
                None
            } else {
                Some(total as u64)
            }
        },
        _ => None,
    }
}

/// `2026-09-26T04:14:54.693295Z` as UNIX ms (UTC `Z` only).
pub fn rfc3339_ms(s: &str) -> (r: Result<u64, String>)
    ensures
        match r {
            Ok(v) => stamp_ms(s@) == Some(v as int),
            Err(e) => stamp_ms(s@) is None && e@ == "fecha inválida: "@ + s@,
        },
{
    match read_stamp(&chars_of(s)) {
        Some(v) => Ok(v),
        None => {
            let mut e = String::from_str("fecha inválida: ");
            e.append(s);
            Err(e)
        },
    }
}

} // verus!

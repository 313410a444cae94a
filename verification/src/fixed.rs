//! Exact fixed point with the universal scale 1e-8.
//!
//! Every venue is represented in the same scale (8 decimals), whatever its tick
//! or step. Reading the text of an exchange is exact or fails: nothing is ever
//! rounded in silence.

use crate::num::{add_i64, clamp_i64, sub_i64};
use crate::ordmap::SortKey;
use crate::text::{
    all_digits, chars_of, dec, digit_char, digit_value, is_digit, lemma_dec_value,
    lemma_value_grows, lemma_value_nonneg, push_chars, push_dec, value,
};
use crate::time::signed;
use vstd::prelude::*;
use vstd::std_specs::ops::{AddSpecImpl, SubSpecImpl};

verus! {

/// Decimals of the universal scale.
pub const DECIMALS: u32 = 8;

/// `10^DECIMALS`.
pub const SCALE: i64 = 100_000_000;

/// Why a decimal text was refused.
#[derive(Debug, Clone, Copy, PartialEq, Eq, Structural)]
pub enum ParseFixedError {
    /// Empty text, or no digits.
    Empty,
    /// A character other than a digit or one point.
    InvalidChar,
    /// More than 8 significant decimals: refused rather than rounded.
    Precision,
    /// The value does not fit in a scaled `i64`.
    Overflow,
    /// Prices and quantities of a book are never negative.
    Negative,
}

impl ParseFixedError {
    /// What [`ParseFixedError::message`] returns.
    pub open spec fn text(self) -> Seq<char> {
        match self {
            ParseFixedError::Empty => "cadena vacía o sin dígitos"@,
            ParseFixedError::InvalidChar => "carácter inválido"@,
            ParseFixedError::Precision => "precisión mayor a 8 decimales"@,
            ParseFixedError::Overflow => "desbordamiento"@,
            ParseFixedError::Negative => "valor negativo no permitido"@,
        }
    }

    /// The message shown for this error.
    pub fn message(self) -> (r: &'static str)
        ensures
            r@ == self.text(),
    {
        match self {
            ParseFixedError::Empty => "cadena vacía o sin dígitos",
            ParseFixedError::InvalidChar => "carácter inválido",
            ParseFixedError::Precision => "precisión mayor a 8 decimales",
            ParseFixedError::Overflow => "desbordamiento",
            ParseFixedError::Negative => "valor negativo no permitido",
        }
    }
}

/// `10^n`.
pub open spec fn pow10(n: nat) -> int
    decreases n,
{
    if n == 0 {
        1
    } else {
        10 * pow10((n - 1) as nat)
    }
}

/// The position of the first point at or after `i`, or the length of `t`.
pub open spec fn point_from(t: Seq<char>, i: int) -> int
    decreases t.len() - i,
{
    if i >= t.len() {
        t.len() as int
    } else if t[i] == '.' {
        i
    } else {
        point_from(t, i + 1)
    }
}

/// The first fault in the integer digits `t[i..p]`, reading left to right.
pub open spec fn int_fault(t: Seq<char>, i: int, p: int) -> Option<ParseFixedError>
    decreases p - i,
{
    if i >= p {
        None
    } else if !is_digit(t[i]) {
        Some(ParseFixedError::InvalidChar)
    } else if value(t.take(i + 1)) > i64::MAX {
        Some(ParseFixedError::Overflow)
    } else {
        int_fault(t, i + 1, p)
    }
}

/// The first fault in the decimals `t[i..]` that follow the point at `p`.
pub open spec fn frac_fault(t: Seq<char>, i: int, p: int) -> Option<ParseFixedError>
    decreases t.len() - i,
{
    if i >= t.len() {
        None
    } else if !is_digit(t[i]) {
        Some(ParseFixedError::InvalidChar)
    } else if i - (p + 1) >= DECIMALS && t[i] != '0' {
        Some(ParseFixedError::Precision)
    } else {
        frac_fault(t, i + 1, p)
    }
}

/// The decimals after the point at `p` that count: the first eight.
pub open spec fn frac_digits(t: Seq<char>, p: int) -> Seq<char> {
    let end = if p + 1 + DECIMALS <= t.len() {
        p + 1 + DECIMALS
    } else {
        t.len() as int
    };
    if p + 1 <= end {
        t.subrange(p + 1, end)
    } else {
        Seq::empty()
    }
}

/// What the text `t` writes, in units of 1e-8, or why it is refused.
pub open spec fn fixed8(t: Seq<char>) -> Result<i64, ParseFixedError> {
    let p = point_from(t, 0);
    let frac = frac_digits(t, p);
    let v = value(t.take(p)) * SCALE + value(frac) * pow10((DECIMALS - frac.len()) as nat);
    if t.len() == 0 {
        Err(ParseFixedError::Empty)
    } else if t[0] == '-' {
        Err(ParseFixedError::Negative)
    } else if int_fault(t, 0, p) is Some {
        Err(int_fault(t, 0, p)->0)
    } else if frac_fault(t, p + 1, p) is Some {
        Err(frac_fault(t, p + 1, p)->0)
    } else if t =~= seq!['.'] {
        Err(ParseFixedError::Empty)
    } else if v > i64::MAX {
        Err(ParseFixedError::Overflow)
    } else {
        Ok(v as i64)
    }
}

proof fn lemma_point_from(t: Seq<char>, i: int, p: int)
    requires
        0 <= i <= p <= t.len(),
        forall|j: int| i <= j < p ==> #[trigger] t[j] != '.',
        p < t.len() ==> t[p] == '.',
    ensures
        point_from(t, i) == p,
    decreases p - i,
{
    if i < p {
        lemma_point_from(t, i + 1, p);
    }
}

proof fn lemma_take_value(t: Seq<char>, i: int)
    requires
        0 <= i < t.len(),
    ensures
        value(t.take(i + 1)) == value(t.take(i)) * 10 + digit_value(t[i]),
{
    assert(t.take(i + 1).drop_last() =~= t.take(i));
}

/// A fault found on the way is the first one.
proof fn lemma_int_fault_step(t: Seq<char>, i: int, k: int, p: int)
    requires
        0 <= i <= k <= p <= t.len(),
        forall|j: int|
            i <= j < k ==> is_digit(#[trigger] t[j]) && value(t.take(j + 1)) <= i64::MAX,
    ensures
        int_fault(t, i, p) == int_fault(t, k, p),
    decreases k - i,
{
    if i < k {
        assert(is_digit(t[i]));
        lemma_int_fault_step(t, i + 1, k, p);
    }
}

/// What a text writes is never negative.
pub proof fn lemma_fixed8_nonneg(t: Seq<char>)
    ensures
        fixed8(t) matches Ok(v) ==> v >= 0,
{
    let p = point_from(t, 0);
    if fixed8(t) is Ok {
        lemma_point_in(t, 0);
        lemma_int_digits(t, 0, p);
        lemma_frac_digits(t, p + 1, p);
        let frac = frac_digits(t, p);
        assert(all_digits(t.take(p)));
        assert(all_digits(frac));
        lemma_value_nonneg(t.take(p));
        lemma_value_nonneg(frac);
        lemma_pow10_positive((DECIMALS - frac.len()) as nat);
        assert(value(frac) * pow10((DECIMALS - frac.len()) as nat) >= 0) by (nonlinear_arith)
            requires
                value(frac) >= 0,
                pow10((DECIMALS - frac.len()) as nat) > 0,
        ;
    }
}

proof fn lemma_point_in(t: Seq<char>, i: int)
    requires
        0 <= i <= t.len(),
    ensures
        i <= point_from(t, i) <= t.len(),
    decreases t.len() - i,
{
    if i < t.len() && t[i] != '.' {
        lemma_point_in(t, i + 1);
    }
}

proof fn lemma_int_digits(t: Seq<char>, i: int, p: int)
    requires
        0 <= i <= p <= t.len(),
        int_fault(t, i, p) is None,
    ensures
        forall|j: int| i <= j < p ==> is_digit(#[trigger] t[j]),
    decreases p - i,
{
    if i < p {
        lemma_int_digits(t, i + 1, p);
    }
}

proof fn lemma_frac_digits(t: Seq<char>, i: int, p: int)
    requires
        0 <= i,
        frac_fault(t, i, p) is None,
    ensures
        forall|j: int| i <= j < t.len() ==> is_digit(#[trigger] t[j]),
    decreases t.len() - i,
{
    if i < t.len() {
        lemma_frac_digits(t, i + 1, p);
    }
}

proof fn lemma_pow10_positive(n: nat)
    ensures
        pow10(n) > 0,
    decreases n,
{
    if n > 0 {
        lemma_pow10_positive((n - 1) as nat);
    }
}

/// Reads `"123.4500"` as `12_345_000_000` (scale 1e8), exactly.
///
/// Trailing zeros past the eighth decimal are accepted (`"1.000000000"`); any
/// significant digit past it is refused.
pub fn parse_fixed8(s: &str) -> (r: Result<i64, ParseFixedError>)
    ensures
        r == fixed8(s@),
{
    let b = chars_of(s);
    let ghost t = s@;
    if b.len() == 0 {
        return Err(ParseFixedError::Empty);
    }
    if b[0] == '-' {
        return Err(ParseFixedError::Negative);
    }
    let mut i: usize = 0;
    let mut units: i64 = 0;
    assert(t.take(0) =~= Seq::<char>::empty());
    while i < b.len() && b[i] != '.'
        invariant
            b@ == t,
            t.len() > 0,
            t[0] != '-',
            0 <= i <= t.len(),
            0 <= units,
            units == value(t.take(i as int)),
            forall|j: int| 0 <= j < i ==> #[trigger] t[j] != '.',
            forall|j: int|
                0 <= j < i ==> is_digit(#[trigger] t[j]) && value(t.take(j + 1)) <= i64::MAX,
            t == s@,
        decreases t.len() - i,
    {
        let c = b[i];
        proof {
            lemma_take_value(t, i as int);
            lemma_int_before(t, i as int);
        }
        if !(c >= '0' && c <= '9') {
            return Err(ParseFixedError::InvalidChar);
        }
        let d: i64 = (c as u32 - 48) as i64;
        if units > (i64::MAX - d) / 10 {
            return Err(ParseFixedError::Overflow);
        }
        units = units * 10 + d;
        i += 1;
    }
    let p: usize = i;
    proof {
        lemma_point_from(t, 0, p as int);
        lemma_int_fault_step(t, 0, p as int, p as int);
    }
    let mut frac: i64 = 0;
    let mut nfrac: u32 = 0;
    if i < b.len() {
        i += 1;
        assert(t.subrange(p + 1, p + 1) =~= Seq::<char>::empty());
        while i < b.len()
            invariant
                b@ == t,
                t == s@,
                t.len() > 0,
                t[0] != '-',
                p == point_from(t, 0),
                int_fault(t, 0, p as int) is None,
                p < i <= t.len(),
                t[p as int] == '.',
                nfrac <= 8,
                nfrac == (if i - (p + 1) < 8 {
                    i - (p + 1)
                } else {
                    8
                }),
                frac == value(t.subrange(p + 1, p + 1 + nfrac)),
                0 <= frac < pow10(nfrac as nat),
                frac_fault(t, p + 1, p as int) == frac_fault(t, i as int, p as int),
            decreases t.len() - i,
        {
            let c = b[i];
            if !(c >= '0' && c <= '9') {
                return Err(ParseFixedError::InvalidChar);
            }
            if nfrac < DECIMALS {
                let d: i64 = (c as u32 - 48) as i64;
                proof {
                    lemma_pow10_small(nfrac as nat);
                    lemma_pow10_small((nfrac + 1) as nat);
                    let u = t.subrange(p + 1, p + 2 + nfrac);
                    assert(u.drop_last() =~= t.subrange(p + 1, p + 1 + nfrac));
                    assert(u.last() == c);
                }
                frac = frac * 10 + d;
                nfrac += 1;
            } else if c != '0' {
                return Err(ParseFixedError::Precision);
            }
            i += 1;
        }
    }
    proof {
        assert(frac_fault(t, p + 1, p as int) is None);
        if p < t.len() {
            assert(frac_digits(t, p as int) =~= t.subrange(p + 1, p + 1 + nfrac));
        } else {
            assert(frac_digits(t, p as int) =~= Seq::<char>::empty());
        }
        assert(value(Seq::<char>::empty()) == 0);
    }
    if b.len() == 1 && p == 0 {
        assert(t =~= seq!['.']);
        return Err(ParseFixedError::Empty);
    }
    assert(t != seq!['.']) by {
        if t == seq!['.'] {
            assert(t[0] == '.');
            assert(point_from(t, 0) == 0);
        }
    }
    let ghost f0 = frac;
    let mut left: u32 = DECIMALS - nfrac;
    proof {
        lemma_pow10_small(nfrac as nat);
        lemma_pow10_small(0);
        assert(frac * 1 == frac);
    }
    while left > 0
        invariant
            left <= 8 - nfrac,
            nfrac <= 8,
            0 <= f0,
            0 <= frac < pow10((8 - left) as nat),
            frac == f0 * pow10((8 - nfrac - left) as nat),
        decreases left,
    {
        proof {
            lemma_pow10_small((8 - left) as nat);
            lemma_pow10_small((8 - left + 1) as nat);
            let e = pow10((8 - nfrac - left) as nat);
            assert(f0 * (10 * e) == 10 * (f0 * e)) by (nonlinear_arith);
        }
        frac = frac * 10;
        left -= 1;
    }
    proof {
        lemma_pow10_small(8);
    }
    if units > (i64::MAX - frac) / SCALE {
        return Err(ParseFixedError::Overflow);
    }
    Ok(units * SCALE + frac)
}

/// The digits read so far hold no fault.
proof fn lemma_int_before(t: Seq<char>, i: int)
    requires
        0 <= i < t.len(),
        t[i] != '.',
        forall|j: int| 0 <= j < i ==> #[trigger] t[j] != '.',
        forall|j: int|
            0 <= j < i ==> is_digit(#[trigger] t[j]) && value(t.take(j + 1)) <= i64::MAX,
    ensures
        i < point_from(t, 0) <= t.len(),
        int_fault(t, 0, point_from(t, 0)) == int_fault(t, i, point_from(t, 0)),
{
    lemma_point_at_least(t, 0, i);
    lemma_int_fault_step(t, 0, i, point_from(t, 0));
}

proof fn lemma_point_at_least(t: Seq<char>, i: int, k: int)
    requires
        0 <= i <= k < t.len(),
        forall|j: int| i <= j <= k ==> #[trigger] t[j] != '.',
    ensures
        k < point_from(t, i) <= t.len(),
    decreases k - i,
{
    assert(t[i] != '.');
    if i < k {
        lemma_point_at_least(t, i + 1, k);
    } else {
        lemma_point_in(t, i + 1);
    }
}

/// The powers of ten up to the scale.
pub proof fn lemma_pow10_small(n: nat)
    requires
        n <= 9,
    ensures
        1 <= pow10(n) <= 1_000_000_000,
        n <= 8 ==> pow10(n) <= SCALE,
        n == 8 ==> pow10(n) == SCALE,
        n > 0 ==> pow10(n) == 10 * pow10((n - 1) as nat),
{
    reveal_with_fuel(pow10, 10);
}

/// The last `n` decimal digits of `x`, with leading zeros.
pub open spec fn padded(x: int, n: nat) -> Seq<char>
    decreases n,
{
    if n == 0 {
        Seq::empty()
    } else {
        padded(x / 10, (n - 1) as nat).push(digit_char(x % 10))
    }
}

/// `t` without its trailing zeros.
pub open spec fn trimmed(t: Seq<char>) -> Seq<char>
    decreases t.len(),
{
    if t.len() > 0 && t.last() == '0' {
        trimmed(t.drop_last())
    } else {
        t
    }
}

/// The position of the first `e` or `E` at or after `i`, or the length of `t`.
pub open spec fn exponent_from(t: Seq<char>, i: int) -> int
    decreases t.len() - i,
{
    if i >= t.len() {
        t.len() as int
    } else if t[i] == 'e' || t[i] == 'E' {
        i
    } else {
        exponent_from(t, i + 1)
    }
}

/// `n` zeros.
pub open spec fn zeros(n: nat) -> Seq<char> {
    Seq::new(n, |i: int| '0')
}

/// The plain decimal `m` with its point moved by `e` places to the right.
pub open spec fn shifted(m: Seq<char>, e: int) -> Seq<char> {
    let p = point_from(m, 0);
    let digits = m.take(p) + (if p < m.len() {
        m.skip(p + 1)
    } else {
        Seq::empty()
    });
    let q = p + e;
    if q <= 0 {
        seq!['0', '.'] + zeros((-q) as nat) + digits
    } else if q >= digits.len() {
        digits + zeros((q - digits.len()) as nat)
    } else {
        digits.take(q) + seq!['.'] + digits.skip(q)
    }
}

/// What a JSON number writes, in units of 1e-8, or why it is refused. An exponent moves
/// the point; one beyond 999 places is refused.
pub open spec fn number8(t: Seq<char>) -> Result<i64, ParseFixedError> {
    let p = exponent_from(t, 0);
    if p >= t.len() {
        fixed8(t)
    } else if t[0] == '-' {
        Err(ParseFixedError::Negative)
    } else if p == 0 {
        Err(ParseFixedError::Empty)
    } else {
        match signed(t.skip(p + 1)) {
            None => Err(ParseFixedError::InvalidChar),
            Some(e) => if e > 999 {
                Err(ParseFixedError::Overflow)
            } else if e < -999 {
                Err(ParseFixedError::Precision)
            } else {
                fixed8(shifted(t.take(p), e))
            },
        }
    }
}

proof fn lemma_exponent_from(t: Seq<char>, i: int, p: int)
    requires
        0 <= i <= p <= t.len(),
        forall|j: int| i <= j < p ==> #[trigger] t[j] != 'e' && t[j] != 'E',
        p < t.len() ==> t[p] == 'e' || t[p] == 'E',
    ensures
        exponent_from(t, i) == p,
    decreases p - i,
{
    if i < p {
        lemma_exponent_from(t, i + 1, p);
    }
}

fn push_zeros(out: &mut String, n: usize)
    ensures
        final(out)@ == old(out)@ + zeros(n as nat),
{
    let mut i: usize = 0;
    assert(old(out)@ + zeros(0) =~= old(out)@);
    while i < n
        invariant
            i <= n,
            out@ == old(out)@ + zeros(i as nat),
        decreases n - i,
    {
        out.push('0');
        i += 1;
        assert(out@ =~= old(out)@ + zeros(i as nat));
    }
}

/// Moves the point of the decimal `b[..n]` by `e` places to the right.
fn shift_point(b: &Vec<char>, n: usize, e: i64) -> (r: String)
    requires
        n <= b@.len(),
        -999 <= e <= 999,
    ensures
        r@ == shifted(b@.take(n as int), e as int),
{
    let ghost m = b@.take(n as int);
    let mut p: usize = 0;
    while p < n && b[p] != '.'
        invariant
            p <= n <= b@.len(),
            m == b@.take(n as int),
            forall|j: int| 0 <= j < p ==> #[trigger] m[j] != '.',
        decreases n - p,
    {
        p += 1;
    }
    proof {
        lemma_point_from(m, 0, p as int);
    }
    let mut digits: Vec<char> = Vec::new();
    let mut i: usize = 0;
    while i < n
        invariant
            i <= n <= b@.len(),
            p <= n,
            m == b@.take(n as int),
            digits@ == (if i <= p {
                m.take(i as int)
            } else {
                m.take(p as int) + m.subrange(p + 1, i as int)
            }),
        decreases n - i,
    {
        if i != p {
            digits.push(b[i]);
        }
        proof {
            if i < p {
                assert(digits@ =~= m.take(i + 1));
            } else if i == p {
                assert(digits@ =~= m.take(p as int) + m.subrange(p + 1, i + 1));
            } else {
                assert(m.subrange(p + 1, i + 1) =~= m.subrange(p + 1, i as int).push(m[i as int]));
                assert(digits@ =~= m.take(p as int) + m.subrange(p + 1, i + 1));
            }
        }
        i += 1;
    }
    let ghost d = m.take(p as int) + (if p < m.len() {
        m.skip(p + 1)
    } else {
        Seq::empty()
    });
    assert(digits@ =~= d);
    let mut out = String::new();
    assert(out@ =~= Seq::<char>::empty());
    let q: i128 = p as i128 + e as i128;
    if q <= 0 {
        out.push('0');
        out.push('.');
        push_zeros(&mut out, (-q) as usize);
        push_chars(&mut out, &digits, 0, digits.len());
        assert(digits@.subrange(0, digits@.len() as int) =~= d);
        assert(out@ =~= seq!['0', '.'] + zeros((-q) as nat) + d);
    } else if q >= digits.len() as i128 {
        push_chars(&mut out, &digits, 0, digits.len());
        assert(digits@.subrange(0, digits@.len() as int) =~= d);
        push_zeros(&mut out, (q - digits.len() as i128) as usize);
        assert(out@ =~= d + zeros((q - d.len()) as nat));
    } else {
        push_chars(&mut out, &digits, 0, q as usize);
        out.push('.');
        push_chars(&mut out, &digits, q as usize, digits.len());
        assert(out@ =~= d.take(q as int) + seq!['.'] + d.skip(q as int));
    }
    out
}

/// The exponent in `b[from..]`, brought within 1000 places.
fn read_exponent(b: &Vec<char>, from: usize) -> (r: Option<i64>)
    requires
        from <= b@.len(),
    ensures
        match signed(b@.skip(from as int)) {
            None => r is None,
            Some(e) => r == Some(
                if e > 1000 {
                    1000i64
                } else if e < -1000 {
                    -1000i64
                } else {
                    e as i64
                },
            ),
        },
{
    let ghost t = b@.skip(from as int);
    let mut start: usize = from;
    let mut negative = false;
    if start < b.len() && (b[start] == '-' || b[start] == '+') {
        negative = b[start] == '-';
        start += 1;
    }
    let ghost digits = b@.skip(start as int);
    proof {
        if start > from {
            assert(t[0] == b@[from as int]);
            assert(digits =~= t.skip(1));
        } else if from < b@.len() {
            assert(t[0] == b@[from as int]);
        }
    }
    if start >= b.len() {
        return None;
    }
    let mut v: i64 = 0;
    let mut i: usize = start;
    assert(digits.take(0) =~= Seq::<char>::empty());
    while i < b.len()
        invariant
            from <= start <= i <= b@.len(),
            start < b@.len(),
            t == b@.skip(from as int),
            digits == b@.skip(start as int),
            digits.len() > 0,
            negative == (t[0] == '-'),
            start > from ==> (t[0] == '-' || t[0] == '+') && digits == t.skip(1),
            start == from ==> t[0] != '-' && t[0] != '+',
            all_digits(digits.take(i - start)),
            v == (if value(digits.take(i - start)) > 1000 {
                1000
            } else {
                value(digits.take(i - start))
            }),
            0 <= v <= 1000,
        decreases b@.len() - i,
    {
        let c = b[i];
        let ghost k = i - start;
        assert(c == digits[k]);
        if !(c >= '0' && c <= '9') {
            assert(!is_digit(digits[k]));
            return None;
        }
        proof {
            let u = digits.take(k + 1);
            assert(u.drop_last() =~= digits.take(k));
            assert(u.last() == c);
            assert forall|j: int| 0 <= j < u.len() implies is_digit(#[trigger] u[j]) by {
                if j < k {
                    assert(u[j] == digits.take(k)[j]);
                }
            }
            lemma_value_nonneg(digits.take(k));
        }
        let d: i64 = (c as u32 - 48) as i64;
        v = v * 10 + d;
        if v > 1000 {
            v = 1000;
        }
        i += 1;
    }
    assert(digits.take(i - start) =~= digits);
    if negative {
        Some(-v)
    } else {
        Some(v)
    }
}

/// Reads the text of a JSON number exactly, without floating point.
pub fn parse_json_number8(s: &str) -> (r: Result<i64, ParseFixedError>)
    ensures
        r == number8(s@),
{
    let b = chars_of(s);
    let ghost t = s@;
    let mut p: usize = 0;
    while p < b.len() && b[p] != 'e' && b[p] != 'E'
        invariant
            b@ == t,
            p <= t.len(),
            forall|j: int| 0 <= j < p ==> #[trigger] t[j] != 'e' && t[j] != 'E',
        decreases t.len() - p,
    {
        p += 1;
    }
    proof {
        lemma_exponent_from(t, 0, p as int);
    }
    if p >= b.len() {
        return parse_fixed8(s);
    }
    if b[0] == '-' {
        return Err(ParseFixedError::Negative);
    }
    if p == 0 {
        return Err(ParseFixedError::Empty);
    }
    match read_exponent(&b, p + 1) {
        None => Err(ParseFixedError::InvalidChar),
        Some(e) => if e > 999 {
            Err(ParseFixedError::Overflow)
        } else if e < -999 {
            Err(ParseFixedError::Precision)
        } else {
            parse_fixed8(shift_point(&b, p, e).as_str())
        },
    }
}

/// The shortest decimal that writes `v` units of 1e-8 (`12.5`, `3`, `0.00000001`).
pub open spec fn fixed8_text(v: int) -> Seq<char> {
    let a = if v < 0 {
        -v
    } else {
        v
    };
    let sign = if v < 0 {
        seq!['-']
    } else {
        Seq::empty()
    };
    let tail = if a % (SCALE as int) == 0 {
        Seq::empty()
    } else {
        seq!['.'] + trimmed(padded(a % (SCALE as int), 8))
    };
    sign + dec((a / (SCALE as int)) as nat) + tail
}

/// Appends the last `n` digits of `x`.
fn push_padded(out: &mut Vec<char>, x: u64, n: u32)
    ensures
        final(out)@ == old(out)@ + padded(x as int, n as nat),
    decreases n,
{
    if n > 0 {
        push_padded(out, x / 10, n - 1);
        let d: u8 = (x % 10) as u8;
        out.push((48u8 + d) as char);
    }
    assert(out@ =~= old(out)@ + padded(x as int, n as nat));
}

proof fn lemma_padded_len(x: int, n: nat)
    ensures
        padded(x, n).len() == n,
    decreases n,
{
    if n > 0 {
        lemma_padded_len(x / 10, (n - 1) as nat);
    }
}

/// Appends `v`, scaled by 1e8, as its shortest decimal.
pub fn write_fixed8(v: i64, out: &mut String)
    ensures
        final(out)@ == old(out)@ + fixed8_text(v as int),
{
    let a: u64 = if v == i64::MIN {
        0x8000_0000_0000_0000u64
    } else if v < 0 {
        (-v) as u64
    } else {
        v as u64
    };
    let whole: u64 = a / 100_000_000;
    let frac: u64 = a % 100_000_000;
    if v < 0 {
        out.push('-');
    }
    push_dec(out, whole as u128);
    if frac != 0 {
        let mut buf: Vec<char> = Vec::new();
        push_padded(&mut buf, frac, 8);
        proof {
            lemma_padded_len(frac as int, 8);
            assert(buf@ =~= padded(frac as int, 8));
        }
        let mut end: usize = buf.len();
        assert(buf@.take(buf@.len() as int) =~= buf@);
        while end > 0 && buf[end - 1] == '0'
            invariant
                end <= buf@.len(),
                trimmed(buf@.take(end as int)) == trimmed(buf@),
            decreases end,
        {
            assert(buf@.take(end as int).drop_last() =~= buf@.take(end - 1));
            end -= 1;
        }
        out.push('.');
        push_chars(out, &buf, 0, end);
        assert(buf@.subrange(0, end as int) =~= buf@.take(end as int));
    }
    assert(out@ =~= old(out)@ + fixed8_text(v as int));
}

proof fn lemma_padded_value(x: int, n: nat)
    requires
        0 <= x < pow10(n),
    ensures
        value(padded(x, n)) == x,
        all_digits(padded(x, n)),
    decreases n,
{
    if n > 0 {
        let m = (n - 1) as nat;
        assert(pow10(n) == 10 * pow10(m));
        assert(x / 10 < pow10(m));
        lemma_padded_value(x / 10, m);
        let d = digit_char(x % 10);
        assert(padded(x, n).drop_last() =~= padded(x / 10, m));
        assert(is_digit(d));
        assert forall|i: int| 0 <= i < padded(x, n).len() implies is_digit(
            #[trigger] padded(x, n)[i],
        ) by {
            if i < padded(x / 10, m).len() {
                assert(padded(x, n)[i] == padded(x / 10, m)[i]);
            }
        }
    } else {
        assert(value(Seq::<char>::empty()) == 0);
    }
}

proof fn lemma_trimmed(t: Seq<char>)
    requires
        all_digits(t),
    ensures
        trimmed(t).len() <= t.len(),
        trimmed(t) == t.take(trimmed(t).len() as int),
        value(t) == value(trimmed(t)) * pow10((t.len() - trimmed(t).len()) as nat),
    decreases t.len(),
{
    if t.len() > 0 && t.last() == '0' {
        let u = t.drop_last();
        assert(all_digits(u));
        lemma_trimmed(u);
        let k = (u.len() - trimmed(u).len()) as nat;
        assert(pow10(k + 1) == 10 * pow10(k));
        let v = value(trimmed(u));
        assert(v * pow10(k) * 10 == v * (10 * pow10(k))) by (nonlinear_arith);
        assert(trimmed(t) =~= t.take(trimmed(t).len() as int));
    } else {
        assert(trimmed(t) =~= t.take(t.len() as int));
        assert(pow10(0) == 1);
        assert(value(t) * 1 == value(t));
    }
}

proof fn lemma_no_frac_fault(t: Seq<char>, i: int, p: int)
    requires
        p < i,
        forall|j: int| i <= j < t.len() ==> is_digit(#[trigger] t[j]),
        t.len() <= p + 1 + 8,
    ensures
        frac_fault(t, i, p) is None,
    decreases t.len() - i,
{
    if i < t.len() {
        lemma_no_frac_fault(t, i + 1, p);
    }
}

/// Reading back a written value gives that value.
pub proof fn law_fixed8_round_trip(v: int)
    requires
        0 <= v <= i64::MAX,
    ensures
        fixed8(fixed8_text(v)) == Ok::<i64, ParseFixedError>(v as i64),
{
    let whole = v / (SCALE as int);
    let frac = v % (SCALE as int);
    let d = dec(whole as nat);
    let t = fixed8_text(v);
    let p = d.len() as int;
    lemma_dec_value(whole as nat);
    lemma_pow10_small(8);
    lemma_padded_value(frac, 8);
    lemma_padded_len(frac, 8);
    let pad = padded(frac, 8);
    let f = trimmed(pad);
    lemma_trimmed(pad);
    assert(t.take(p) =~= d);
    assert forall|j: int| 0 <= j < p implies #[trigger] t[j] != '.' && t[j] != '-' by {
        assert(t[j] == d[j]);
        assert(is_digit(d[j]));
    }
    assert(t.len() > 0 && t[0] != '-') by {
        assert(t[0] == d[0]);
    }
    lemma_point_from(t, 0, p);
    assert forall|j: int| 0 <= j < p implies is_digit(#[trigger] t[j]) && value(t.take(j + 1))
        <= i64::MAX by {
        assert(t[j] == d[j]);
        assert(is_digit(d[j]));
        assert(t.take(j + 1) =~= d.take(j + 1));
        lemma_value_grows(d, j + 1);
    }
    lemma_int_fault_step(t, 0, p, p);
    assert(t != seq!['.']) by {
        if t == seq!['.'] {
            assert(t[0] == '.');
        }
    }
    assert(value(Seq::<char>::empty()) == 0);
    if frac == 0 {
        assert(frac_digits(t, p) =~= Seq::<char>::empty());
        lemma_no_frac_fault(t, p + 1, p);
    } else {
        assert(t.len() == p + 1 + f.len());
        assert forall|j: int| p + 1 <= j < t.len() implies is_digit(#[trigger] t[j]) by {
            assert(t[j] == f[j - (p + 1)]);
            assert(f[j - (p + 1)] == pad[j - (p + 1)]);
        }
        lemma_no_frac_fault(t, p + 1, p);
        assert(frac_digits(t, p) =~= f);
    }
}

/// A number of `n` digits is under `10^n`.
proof fn lemma_value_bound(t: Seq<char>)
    requires
        all_digits(t),
    ensures
        0 <= value(t) < pow10(t.len()),
    decreases t.len(),
{
    if t.len() > 0 {
        let u = t.drop_last();
        assert(all_digits(u));
        lemma_value_bound(u);
        assert(pow10(t.len()) == 10 * pow10(u.len()));
        assert(is_digit(t[t.len() - 1]));
    }
}

/// A number under `10^k` takes at most `k` digits.
proof fn lemma_dec_len(n: nat, k: nat)
    requires
        k > 0,
        n < pow10(k),
    ensures
        dec(n).len() <= k,
    decreases k,
{
    if n >= 10 {
        let m = (k - 1) as nat;
        assert(pow10(k) == 10 * pow10(m));
        if m == 0 {
            assert(pow10(0) == 1);
        }
        lemma_dec_len(n / 10, m);
    }
}

/// A multiple of `10^m` has at least `m` zeros at the end.
proof fn lemma_trimmed_len(x: int, y: int, m: nat, n: nat)
    requires
        0 <= y,
        m <= n,
        x == y * pow10(m),
    ensures
        trimmed(padded(x, n)).len() <= n - m,
    decreases n,
{
    if m == 0 {
        lemma_trimmed_short(padded(x, n));
        lemma_padded_len(x, n);
    } else {
        let l = (m - 1) as nat;
        assert(pow10(m) == 10 * pow10(l));
        assert(x == 10 * (y * pow10(l))) by (nonlinear_arith)
            requires
                x == y * pow10(m),
                pow10(m) == 10 * pow10(l),
        ;
        assert(padded(x, n).last() == '0');
        assert(padded(x, n).drop_last() =~= padded(x / 10, (n - 1) as nat));
        lemma_trimmed_len(x / 10, y, l, (n - 1) as nat);
    }
}

proof fn lemma_trimmed_short(t: Seq<char>)
    ensures
        trimmed(t).len() <= t.len(),
    decreases t.len(),
{
    if t.len() > 0 && t.last() == '0' {
        lemma_trimmed_short(t.drop_last());
    }
}

/// The text written is the shortest one: no text that starts with a digit and
/// reads as the same value is shorter.
pub proof fn law_fixed8_text_is_shortest(v: int, t: Seq<char>)
    requires
        0 <= v <= i64::MAX,
        t.len() > 0,
        is_digit(t[0]),
        fixed8(t) == Ok::<i64, ParseFixedError>(v as i64),
    ensures
        fixed8_text(v).len() <= t.len(),
{
    let p = point_from(t, 0);
    let frac = frac_digits(t, p);
    let m = (8 - frac.len()) as nat;
    lemma_point_in(t, 0);
    lemma_point_in(t, 1);
    lemma_int_digits(t, 0, p);
    lemma_frac_digits(t, p + 1, p);
    let d = t.take(p);
    assert(all_digits(d)) by {
        assert forall|j: int| 0 <= j < d.len() implies is_digit(#[trigger] d[j]) by {
            assert(d[j] == t[j]);
        }
    }
    assert(all_digits(frac)) by {
        assert forall|j: int| 0 <= j < frac.len() implies is_digit(#[trigger] frac[j]) by {
            assert(frac[j] == t[p + 1 + j]);
        }
    }
    lemma_value_bound(d);
    lemma_value_bound(frac);
    lemma_pow10_small(8);
    let whole = value(d);
    let part = value(frac) * pow10(m);
    lemma_pow10_sum(frac.len(), m);
    assert(0 <= part < pow10(8)) by (nonlinear_arith)
        requires
            part == value(frac) * pow10(m),
            0 <= value(frac) < pow10(frac.len()),
            pow10(frac.len()) * pow10(m) == pow10(8),
            pow10(m) > 0,
    ;
    assert(v == whole * SCALE + part);
    assert(v / (SCALE as int) == whole && v % (SCALE as int) == part) by {
        vstd::arithmetic::div_mod::lemma_fundamental_div_mod_converse(
            v,
            SCALE as int,
            whole,
            part,
        );
    }
    lemma_dec_len(whole as nat, p as nat);
    if part != 0 {
        if frac.len() == 0 {
            assert(value(frac) == 0);
            assert(part == 0) by (nonlinear_arith)
                requires
                    part == value(frac) * pow10(m),
                    value(frac) == 0,
            ;
        }
        lemma_trimmed_len(part, value(frac), m, 8);
    }
}

proof fn lemma_pow10_sum(a: nat, b: nat)
    ensures
        pow10(a) * pow10(b) == pow10(a + b),
        pow10(b) > 0,
    decreases b,
{
    if b == 0 {
        assert(pow10(0) == 1);
        assert(pow10(a) * 1 == pow10(a));
    } else {
        let c = (b - 1) as nat;
        lemma_pow10_sum(a, c);
        assert(pow10(b) == 10 * pow10(c));
        assert(pow10(a + b) == 10 * pow10(a + c));
        assert(pow10(a) * (10 * pow10(c)) == 10 * (pow10(a) * pow10(c))) by (nonlinear_arith);
    }
}

/// A price, in units of 1e-8 of the quote currency.
#[derive(Debug, Clone, Copy, PartialEq, Eq, Structural, PartialOrd, Ord, Hash)]
pub struct Px(pub i64);

impl Px {
    /// Zero.
    pub fn zero() -> (r: Self)
        ensures
            r == Px(0),
    {
        Px(0)
    }

    /// Reads the text of the exchange exactly.
    pub fn parse(s: &str) -> (r: Result<Self, ParseFixedError>)
        ensures
            r == (match fixed8(s@) {
                Ok(v) => Ok(Px(v)),
                Err(e) => Err(e),
            }),
    {
        match parse_fixed8(s) {
            Ok(v) => Ok(Px(v)),
            Err(e) => Err(e),
        }
    }

    /// The raw value, scaled by 1e8.
    pub fn raw(self) -> (r: i64)
        ensures
            r == self.0,
    {
        self.0
    }

    /// From a raw integer scaled by 1e8.
    pub fn from_raw(v: i64) -> (r: Self)
        ensures
            r == Px(v),
    {
        Px(v)
    }

    /// From whole units (`from_units(1)` is 1.0).
    pub fn from_units(u: i64) -> (r: Self)
        requires
            i64::MIN <= u * SCALE <= i64::MAX,
        ensures
            r.0 == u * SCALE,
    {
        Px(u * SCALE)
    }

    /// Whether it is zero.
    pub fn is_zero(self) -> (r: bool)
        ensures
            r == (self.0 == 0),
    {
        self.0 == 0
    }

    /// Whether it is strictly positive.
    pub fn is_positive(self) -> (r: bool)
        ensures
            r == (self.0 > 0),
    {
        self.0 > 0
    }

    /// The exact decimal text.
    pub fn to_string(&self) -> (r: String)
        ensures
            r@ == fixed8_text(self.0 as int),
    {
        let mut out = String::new();
        write_fixed8(self.0, &mut out);
        out
    }
}

impl Default for Px {
    /// Zero.
    fn default() -> (r: Self)
        ensures
            r == Px(0),
    {
        Px(0)
    }
}

impl AddSpecImpl for Px {
    open spec fn obeys_add_spec() -> bool {
        true
    }

    open spec fn add_req(self, o: Px) -> bool {
        true
    }

    open spec fn add_spec(self, o: Px) -> Px {
        Px(clamp_i64(self.0 + o.0) as i64)
    }
}

impl core::ops::Add for Px {
    type Output = Px;

    fn add(self, o: Px) -> (r: Px) {
        Px(add_i64(self.0, o.0))
    }
}

impl SubSpecImpl for Px {
    open spec fn obeys_sub_spec() -> bool {
        true
    }

    open spec fn sub_req(self, o: Px) -> bool {
        true
    }

    open spec fn sub_spec(self, o: Px) -> Px {
        Px(clamp_i64(self.0 - o.0) as i64)
    }
}

impl core::ops::Sub for Px {
    type Output = Px;

    fn sub(self, o: Px) -> (r: Px) {
        Px(sub_i64(self.0, o.0))
    }
}

/// A quantity, in units of 1e-8 of the base asset.
#[derive(Debug, Clone, Copy, PartialEq, Eq, Structural, PartialOrd, Ord, Hash)]
pub struct Qty(pub i64);

impl Qty {
    /// Zero.
    pub fn zero() -> (r: Self)
        ensures
            r == Qty(0),
    {
        Qty(0)
    }

    /// Reads the text of the exchange exactly.
    pub fn parse(s: &str) -> (r: Result<Self, ParseFixedError>)
        ensures
            r == (match fixed8(s@) {
                Ok(v) => Ok(Qty(v)),
                Err(e) => Err(e),
            }),
    {
        match parse_fixed8(s) {
            Ok(v) => Ok(Qty(v)),
            Err(e) => Err(e),
        }
    }

    /// The raw value, scaled by 1e8.
    pub fn raw(self) -> (r: i64)
        ensures
            r == self.0,
    {
        self.0
    }

    /// From a raw integer scaled by 1e8.
    pub fn from_raw(v: i64) -> (r: Self)
        ensures
            r == Qty(v),
    {
        Qty(v)
    }

    /// From whole units (`from_units(1)` is 1.0).
    pub fn from_units(u: i64) -> (r: Self)
        requires
            i64::MIN <= u * SCALE <= i64::MAX,
        ensures
            r.0 == u * SCALE,
    {
        Qty(u * SCALE)
    }

    /// Whether it is zero.
    pub fn is_zero(self) -> (r: bool)
        ensures
            r == (self.0 == 0),
    {
        self.0 == 0
    }

    /// Whether it is strictly positive.
    pub fn is_positive(self) -> (r: bool)
        ensures
            r == (self.0 > 0),
    {
        self.0 > 0
    }

    /// The exact decimal text.
    pub fn to_string(&self) -> (r: String)
        ensures
            r@ == fixed8_text(self.0 as int),
    {
        let mut out = String::new();
        write_fixed8(self.0, &mut out);
        out
    }
}

impl Default for Qty {
    /// Zero.
    fn default() -> (r: Self)
        ensures
            r == Qty(0),
    {
        Qty(0)
    }
}

impl AddSpecImpl for Qty {
    open spec fn obeys_add_spec() -> bool {
        true
    }

    open spec fn add_req(self, o: Qty) -> bool {
        true
    }

    open spec fn add_spec(self, o: Qty) -> Qty {
        Qty(clamp_i64(self.0 + o.0) as i64)
    }
}

impl core::ops::Add for Qty {
    type Output = Qty;

    fn add(self, o: Qty) -> (r: Qty) {
        Qty(add_i64(self.0, o.0))
    }
}

impl SubSpecImpl for Qty {
    open spec fn obeys_sub_spec() -> bool {
        true
    }

    open spec fn sub_req(self, o: Qty) -> bool {
        true
    }

    open spec fn sub_spec(self, o: Qty) -> Qty {
        Qty(clamp_i64(self.0 - o.0) as i64)
    }
}

impl core::ops::Sub for Qty {
    type Output = Qty;

    fn sub(self, o: Qty) -> (r: Qty) {
        Qty(sub_i64(self.0, o.0))
    }
}

impl SortKey for Px {
    open spec fn major(self) -> int {
        self.0 as int
    }

    open spec fn minor(self) -> int {
        0
    }

    proof fn same_rank(a: Self, b: Self) {
    }

    fn precedes(&self, other: &Self) -> (r: bool) {
        self.0 < other.0
    }
}

impl Px {
    /// The index of the bucket of width `width` that holds the price
    /// (`Px::from_units(1)` gives levels of one unit).
    pub fn bucket(self, width: Px) -> (r: i64)
        requires
            width.0 > 0,
        ensures
            r == self.0 as int / width.0 as int,
            r * width.0 <= self.0 < (r + 1) * width.0,
    {
        proof {
            lemma_floor(self.0 as int, width.0 as int);
        }
        match self.0.checked_div_euclid(width.0) {
            Some(q) => q,
            None => 0,
        }
    }
}

/// Floor division: the quotient brackets the dividend and is no larger than it.
pub proof fn lemma_floor(x: int, w: int)
    requires
        w > 0,
    ensures
        (x / w) * w <= x < (x / w + 1) * w,
        x >= 0 ==> 0 <= x / w <= x,
        x < 0 ==> x <= x / w < 0,
{
    vstd::arithmetic::div_mod::lemma_fundamental_div_mod(x, w);
    let q = x / w;
    assert(q * w <= x < (q + 1) * w) by (nonlinear_arith)
        requires
            x == w * q + x % w,
            0 <= x % w < w,
    ;
    assert(x >= 0 ==> 0 <= q <= x) by (nonlinear_arith)
        requires
            q * w <= x < (q + 1) * w,
            w > 0,
    ;
    assert(x < 0 ==> x <= q < 0) by (nonlinear_arith)
        requires
            q * w <= x < (q + 1) * w,
            w > 0,
    ;
}

/// Division by the scale, towards zero.
pub open spec fn unscaled(x: int) -> int {
    if x < 0 {
        -((-x) / (SCALE as int))
    } else {
        x / (SCALE as int)
    }
}

/// The exact notional `px * qty` in units of 1e-8 of the quote currency.
pub fn notional(px: Px, qty: Qty) -> (r: i128)
    ensures
        r == unscaled(px.0 * qty.0),
{
    let a: i64 = px.0;
    let b: i64 = qty.0;
    assert(-0x4000_0000_0000_0000_0000_0000_0000_0000 <= a * b
        <= 0x4000_0000_0000_0000_0000_0000_0000_0000) by (nonlinear_arith)
        requires
            -0x8000_0000_0000_0000 <= a <= 0x7fff_ffff_ffff_ffff,
            -0x8000_0000_0000_0000 <= b <= 0x7fff_ffff_ffff_ffff,
    ;
    let p: i128 = a as i128 * b as i128;
    if p < 0 {
        let n: i128 = (-p) / 100_000_000;
        -n
    } else {
        p / 100_000_000
    }
}

} // verus!

//! What numbers, stamps and checksums mean.

use crate::crc::{crc_bit, crc_bits, crc_of, crc_register};
use crate::fixed::{
    exponent_from, fixed8, frac_digits, frac_fault, int_fault, number8, point_from, pow10, shifted,
    unscaled, ParseFixedError,
};
use crate::text::{
    all_digits, dec, int_text, is_digit, lemma_dec_value, lemma_value_nonneg, lemma_value_grows,
    unsigned, value,
};
use crate::time::{days_from_civil, fraction_ms, signed, stamp_ms};
use vstd::prelude::*;

verus! {

/// Digits are read in base ten: one more digit at the end is ten times as much and itself.
pub proof fn law_digits_in_base_ten(t: Seq<char>, c: char)
    requires
        is_digit(c),
    ensures
        value(Seq::<char>::empty()) == 0,
        value(t.push(c)) == 10 * value(t) + (c as int - '0' as int),
        '0' <= c <= '9',
{
    assert(t.push(c).drop_last() == t);
}

/// An unsigned number is read back as written, and so is a signed one.
pub proof fn law_integers_round_trip(n: nat, v: int)
    ensures
        n <= u64::MAX ==> unsigned(dec(n)) == Some(n as u64),
        n > u64::MAX ==> unsigned(dec(n)) is None,
        signed(int_text(v)) == Some(v),
        dec(n).len() > 1 ==> dec(n)[0] != '0',
{
    lemma_dec_value(n);
    lemma_front(n);
    assert(is_digit(dec(n)[0]));
    let a = if v < 0 {
        (-v) as nat
    } else {
        v as nat
    };
    lemma_dec_value(a);
    let t = int_text(v);
    if v < 0 {
        assert(t[0] == '-');
        assert(t.skip(1) == dec(a));
    } else {
        assert(is_digit(t[0]));
    }
}

proof fn lemma_front(n: nat)
    ensures
        dec(n).len() > 0,
        n > 0 ==> dec(n)[0] != '0',
        n < 10 ==> dec(n).len() == 1,
    decreases n,
{
    if n >= 10 {
        lemma_front(n / 10);
    }
}

/// No integer fault among digits whose number fits.
proof fn lemma_no_int_fault(t: Seq<char>, i: int, p: int)
    requires
        0 <= i <= p <= t.len(),
        all_digits(t.take(p)),
        value(t.take(p)) <= i64::MAX,
    ensures
        int_fault(t, i, p) is None,
    decreases p - i,
{
    if i < p {
        lemma_no_int_fault(t, i + 1, p);
        assert(is_digit(t.take(p)[i]));
        lemma_value_grows(t.take(p), i + 1);
        assert(t.take(p).take(i + 1) == t.take(i + 1));
    }
}

proof fn lemma_no_frac_fault(t: Seq<char>, i: int, p: int)
    requires
        0 <= p < i,
        t.len() <= p + 9,
        forall|j: int| p < j < t.len() ==> is_digit(#[trigger] t[j]),
    ensures
        frac_fault(t, i, p) is None,
    decreases t.len() - i,
{
    if i < t.len() {
        lemma_no_frac_fault(t, i + 1, p);
    }
}

proof fn lemma_point(t: Seq<char>, i: int, p: int)
    requires
        0 <= i <= p <= t.len(),
        forall|j: int| i <= j < p ==> #[trigger] t[j] != '.',
        p < t.len() ==> t[p] == '.',
    ensures
        point_from(t, i) == p,
    decreases p - i,
{
    if i < p {
        lemma_point(t, i + 1, p);
    }
}

/// A decimal with up to eight decimals is its integer part in units of 1e-8 and its
/// decimals, each worth a tenth of the one before; it is refused where it does not fit.
pub proof fn law_decimal_is_its_digits(a: Seq<char>, b: Seq<char>)
    requires
        a.len() > 0,
        all_digits(a),
        all_digits(b),
        b.len() <= 8,
        value(a) <= i64::MAX,
    ensures
        ({
            let v = value(a) * 1_0000_0000 + value(b) * pow10((8 - b.len()) as nat);
            &&& v <= i64::MAX ==> fixed8(a + seq!['.'] + b) == Ok::<i64, ParseFixedError>(v as i64)
            &&& v > i64::MAX ==> fixed8(a + seq!['.'] + b) == Err::<i64, ParseFixedError>(
                ParseFixedError::Overflow,
            )
        }),
{
    let t = a + seq!['.'] + b;
    let p = a.len() as int;
    assert(is_digit(a[0]) && t[0] == a[0]);
    assert forall|j: int| 0 <= j < p implies #[trigger] t[j] != '.' by {
        assert(is_digit(a[j]));
    }
    lemma_point(t, 0, p);
    assert(t.take(p) == a);
    lemma_no_int_fault(t, 0, p);
    assert forall|j: int| p < j < t.len() implies is_digit(#[trigger] t[j]) by {
        assert(t[j] == b[j - p - 1]);
    }
    lemma_no_frac_fault(t, p + 1, p);
    assert(frac_digits(t, p) == b);
    assert(!(t =~= seq!['.'])) by {
        assert(t[0] != '.');
    }
}

/// A whole number is itself in units of 1e-8, or refused where it does not fit.
pub proof fn law_whole_is_its_digits(a: Seq<char>)
    requires
        a.len() > 0,
        all_digits(a),
        value(a) <= i64::MAX,
    ensures
        value(a) * 1_0000_0000 <= i64::MAX ==> fixed8(a) == Ok::<i64, ParseFixedError>(
            (value(a) * 1_0000_0000) as i64,
        ),
        value(a) * 1_0000_0000 > i64::MAX ==> fixed8(a) == Err::<i64, ParseFixedError>(
            ParseFixedError::Overflow,
        ),
{
    let p = a.len() as int;
    assert(is_digit(a[0]));
    assert forall|j: int| 0 <= j < p implies #[trigger] a[j] != '.' by {
        assert(is_digit(a[j]));
    }
    lemma_point(a, 0, p);
    assert(a.take(p) == a);
    lemma_no_int_fault(a, 0, p);
    assert(frac_digits(a, p) == Seq::<char>::empty());
    assert(frac_fault(a, p + 1, p) is None);
    assert(!(a =~= seq!['.'])) by {
        assert(a[0] != '.');
    }
}

/// What is no decimal is refused: nothing, a point alone, a sign, or another character.
pub proof fn law_what_is_no_decimal(t: Seq<char>)
    ensures
        fixed8(Seq::<char>::empty()) == Err::<i64, ParseFixedError>(ParseFixedError::Empty),
        fixed8(seq!['.']) == Err::<i64, ParseFixedError>(ParseFixedError::Empty),
        t.len() > 0 && t[0] == '-' ==> fixed8(t) == Err::<i64, ParseFixedError>(
            ParseFixedError::Negative,
        ) && number8(t) == Err::<i64, ParseFixedError>(ParseFixedError::Negative),
        fixed8(t) is Ok ==> forall|i: int|
            0 <= i < t.len() ==> is_digit(#[trigger] t[i]) || t[i] == '.',
        fixed8(t) is Ok ==> forall|i: int, j: int|
            #![trigger t[i], t[j]]
            0 <= i < j < t.len() ==> t[i] != '.' || t[j] != '.',
{
    let s = seq!['.'];
    lemma_point(s, 0, 0);
    assert(s.take(0) == Seq::<char>::empty());
    assert(int_fault(s, 0, 0) is None);
    assert(frac_fault(s, 1, 0) is None);
    if fixed8(t) is Ok {
        let p = point_from(t, 0);
        lemma_point_here(t, 0);
        lemma_int_read(t, 0, p);
        lemma_frac_read(t, p + 1, p);
    }
}

proof fn lemma_point_here(t: Seq<char>, i: int)
    requires
        0 <= i <= t.len(),
    ensures
        i <= point_from(t, i) <= t.len(),
        point_from(t, i) < t.len() ==> t[point_from(t, i)] == '.',
    decreases t.len() - i,
{
    if i < t.len() && t[i] != '.' {
        lemma_point_here(t, i + 1);
    }
}

proof fn lemma_int_read(t: Seq<char>, i: int, p: int)
    requires
        0 <= i <= p <= t.len(),
        int_fault(t, i, p) is None,
    ensures
        forall|j: int| i <= j < p ==> is_digit(#[trigger] t[j]),
    decreases p - i,
{
    if i < p {
        lemma_int_read(t, i + 1, p);
    }
}

proof fn lemma_frac_read(t: Seq<char>, i: int, p: int)
    requires
        0 <= i,
        frac_fault(t, i, p) is None,
    ensures
        forall|j: int| i <= j < t.len() ==> is_digit(#[trigger] t[j]),
    decreases t.len() - i,
{
    if i < t.len() {
        lemma_frac_read(t, i + 1, p);
    }
}

/// Days of a month.
pub open spec fn month_days(y: int, mo: int) -> int {
    if mo == 2 {
        if y % 4 == 0 && (y % 100 != 0 || y % 400 == 0) {
            29
        } else {
            28
        }
    } else if mo == 4 || mo == 6 || mo == 9 || mo == 11 {
        30
    } else {
        31
    }
}

/// Days are counted from 1970-01-01: a day follows a day, a month follows the last day of
/// the one before, and a year follows its last month.
pub proof fn law_days_follow_the_calendar(y: int, mo: int, d: int)
    requires
        1 <= mo <= 12,
    ensures
        days_from_civil(1970, 1, 1) == 0,
        days_from_civil(y, mo, d + 1) == days_from_civil(y, mo, d) + 1,
        mo < 12 ==> days_from_civil(y, mo + 1, 1) == days_from_civil(y, mo, 1) + month_days(y, mo),
        days_from_civil(y + 1, 1, 1) == days_from_civil(y, 12, 1) + month_days(y, 12),
{
    if mo == 2 {
        lemma_leap(y);
    }
}

proof fn lemma_leap(y: int)
    ensures
        days_from_civil(y, 3, 1) == days_from_civil(y, 2, 1) + month_days(y, 2),
{
    let a = y / 400;
    let r = y % 400;
    assert(y == 400 * a + r);
    assert(y % 4 == r % 4);
    assert(y % 100 == r % 100);
    let e = (y - 1) / 400;
    if r == 0 {
        assert(e == a - 1);
    } else {
        assert(e == a);
    }
}

/// A stamp is its date at midnight and the time of day: hours, minutes, seconds and the
/// fraction, each in milliseconds.
pub proof fn law_stamp_is_its_parts(t: Seq<char>)
    ensures
        stamp_ms(t) matches Some(ms) ==> {
            &&& t.len() >= 20 && t[4] == '-' && t[7] == '-' && t[10] == 'T' && t.last() == 'Z'
            &&& signed(t.subrange(0, 4)) matches Some(y)
            &&& signed(t.subrange(5, 7)) matches Some(mo)
            &&& signed(t.subrange(8, 10)) matches Some(d)
            &&& signed(t.subrange(11, 13)) matches Some(h)
            &&& signed(t.subrange(14, 16)) matches Some(mi)
            &&& signed(t.subrange(17, 19)) matches Some(se)
            &&& ms >= 0
            &&& t[19] != '.' ==> ms == days_from_civil(y, mo, d) * 86_400_000 + h * 3_600_000 + mi
                * 60_000 + se * 1000
            &&& t[19] == '.' ==> (fraction_ms(t.subrange(20, t.len() - 1)) matches Some(f) && ms
                == days_from_civil(y, mo, d) * 86_400_000 + h * 3_600_000 + mi * 60_000 + se * 1000
                + f)
        },
{
}

/// A fraction of a second in digits is worth its first three: tenths, hundredths and
/// thousandths.
pub proof fn law_fraction_is_thousandths(f: Seq<char>)
    requires
        all_digits(f),
    ensures
        f.len() == 0 ==> fraction_ms(f) is None,
        f.len() == 1 ==> fraction_ms(f) == Some(value(f) * 100),
        f.len() == 2 ==> fraction_ms(f) == Some(value(f) * 10),
        f.len() >= 3 ==> fraction_ms(f) == Some(value(f.take(3))),
{
    if f.len() > 0 {
        assert(is_digit(f[0]));
        if f.len() >= 3 {
            assert(forall|i: int| 0 <= i < 3 ==> f.take(3)[i] == f[i]);
        }
    }
}

/// The checksum of nothing is zero, and what is followed by its own checksum, lowest byte
/// first, always checks to the same constant.
pub proof fn law_checksum_leaves_a_constant(b: Seq<u8>)
    ensures
        crc_of(Seq::<u8>::empty()) == 0,
        ({
            let c = crc_of(b);
            crc_of(
                b.push((c & 0xff) as u8).push(((c >> 8) & 0xff) as u8).push(
                    ((c >> 16) & 0xff) as u8,
                ).push(((c >> 24) & 0xff) as u8),
            ) == 0x2144_df1c
        }),
{
    assert(0xffff_ffffu32 ^ 0xffff_ffff == 0) by (bit_vector);
    let r = crc_register(b);
    let c = crc_of(b);
    let b1 = b.push((c & 0xff) as u8);
    let b2 = b1.push(((c >> 8) & 0xff) as u8);
    let b3 = b2.push(((c >> 16) & 0xff) as u8);
    let b4 = b3.push(((c >> 24) & 0xff) as u8);
    assert(b1.drop_last() == b && b2.drop_last() == b1 && b3.drop_last() == b2 && b4.drop_last()
        == b3);
    let r1 = crc_register(b1);
    let r2 = crc_register(b2);
    let r3 = crc_register(b3);
    let x0: u32 = r ^ (((c & 0xff) as u8) as u32);
    assert(x0 & 0xff == 0xff && (x0 >> 8) ^ 0x2d02ef8d == (r >> 8) ^ 0x2d02ef8d) by (bit_vector)
        requires
            x0 == r ^ (((c & 0xff) as u8) as u32),
            c == r ^ 0xffff_ffff,
    ;
    lemma_byte_0(x0);
    let x1: u32 = r1 ^ ((((c >> 8) & 0xff) as u8) as u32);
    assert(x1 & 0xff == 0x72 && (x1 >> 8) ^ 0xbe0b1010 == (r >> 16) ^ 0xbe2612ff) by (bit_vector)
        requires
            x1 == r1 ^ ((((c >> 8) & 0xff) as u8) as u32),
            c == r ^ 0xffff_ffff,
            r1 == (r >> 8) ^ 0x2d02ef8d,
    ;
    lemma_byte_1(x1);
    let x2: u32 = r2 ^ ((((c >> 16) & 0xff) as u8) as u32);
    assert(x2 & 0xff == 0x0 && (x2 >> 8) ^ 0x0 == (r >> 24) ^ 0xbe2612) by (bit_vector)
        requires
            x2 == r2 ^ ((((c >> 16) & 0xff) as u8) as u32),
            c == r ^ 0xffff_ffff,
            r2 == (r >> 16) ^ 0xbe2612ff,
    ;
    lemma_byte_2(x2);
    let x3: u32 = r3 ^ ((((c >> 24) & 0xff) as u8) as u32);
    assert(x3 & 0xff == 0xed && (x3 >> 8) ^ 0xdebb9ec5 == 0xdebb20e3u32) by (bit_vector)
        requires
            x3 == r3 ^ ((((c >> 24) & 0xff) as u8) as u32),
            c == r ^ 0xffff_ffff,
            r3 == (r >> 24) ^ 0xbe2612,
    ;
    lemma_byte_3(x3);
    assert(0xdebb20e3u32 ^ 0xffff_ffff == 0x2144_df1c) by (bit_vector);
}

proof fn lemma_byte_0(x0: u32)
    requires
        x0 & 0xff == 0xff,
    ensures
        crc_bits(x0, 8) == (x0 >> 8) ^ 0x2d02ef8d,
{
    let x1 = crc_bit(x0);
    let x2 = crc_bit(x1);
    let x3 = crc_bit(x2);
    let x4 = crc_bit(x3);
    let x5 = crc_bit(x4);
    let x6 = crc_bit(x5);
    let x7 = crc_bit(x6);
    let x8 = crc_bit(x7);
    reveal_with_fuel(crc_bits, 9);
    assert(x8 == (x0 >> 8) ^ 0x2d02ef8d) by (bit_vector)
        requires
            x0 & 0xff == 0xff,
            x1 == (if x0 & 1 == 1 { (x0 >> 1) ^ 0xedb8_8320 } else { x0 >> 1 }),
            x2 == (if x1 & 1 == 1 { (x1 >> 1) ^ 0xedb8_8320 } else { x1 >> 1 }),
            x3 == (if x2 & 1 == 1 { (x2 >> 1) ^ 0xedb8_8320 } else { x2 >> 1 }),
            x4 == (if x3 & 1 == 1 { (x3 >> 1) ^ 0xedb8_8320 } else { x3 >> 1 }),
            x5 == (if x4 & 1 == 1 { (x4 >> 1) ^ 0xedb8_8320 } else { x4 >> 1 }),
            x6 == (if x5 & 1 == 1 { (x5 >> 1) ^ 0xedb8_8320 } else { x5 >> 1 }),
            x7 == (if x6 & 1 == 1 { (x6 >> 1) ^ 0xedb8_8320 } else { x6 >> 1 }),
            x8 == (if x7 & 1 == 1 { (x7 >> 1) ^ 0xedb8_8320 } else { x7 >> 1 }),
    ;
}

proof fn lemma_byte_1(x0: u32)
    requires
        x0 & 0xff == 0x72,
    ensures
        crc_bits(x0, 8) == (x0 >> 8) ^ 0xbe0b1010,
{
    let x1 = crc_bit(x0);
    let x2 = crc_bit(x1);
    let x3 = crc_bit(x2);
    let x4 = crc_bit(x3);
    let x5 = crc_bit(x4);
    let x6 = crc_bit(x5);
    let x7 = crc_bit(x6);
    let x8 = crc_bit(x7);
    reveal_with_fuel(crc_bits, 9);
    assert(x8 == (x0 >> 8) ^ 0xbe0b1010) by (bit_vector)
        requires
            x0 & 0xff == 0x72,
            x1 == (if x0 & 1 == 1 { (x0 >> 1) ^ 0xedb8_8320 } else { x0 >> 1 }),
            x2 == (if x1 & 1 == 1 { (x1 >> 1) ^ 0xedb8_8320 } else { x1 >> 1 }),
            x3 == (if x2 & 1 == 1 { (x2 >> 1) ^ 0xedb8_8320 } else { x2 >> 1 }),
            x4 == (if x3 & 1 == 1 { (x3 >> 1) ^ 0xedb8_8320 } else { x3 >> 1 }),
            x5 == (if x4 & 1 == 1 { (x4 >> 1) ^ 0xedb8_8320 } else { x4 >> 1 }),
            x6 == (if x5 & 1 == 1 { (x5 >> 1) ^ 0xedb8_8320 } else { x5 >> 1 }),
            x7 == (if x6 & 1 == 1 { (x6 >> 1) ^ 0xedb8_8320 } else { x6 >> 1 }),
            x8 == (if x7 & 1 == 1 { (x7 >> 1) ^ 0xedb8_8320 } else { x7 >> 1 }),
    ;
}

proof fn lemma_byte_2(x0: u32)
    requires
        x0 & 0xff == 0x0,
    ensures
        crc_bits(x0, 8) == (x0 >> 8) ^ 0x0,
{
    let x1 = crc_bit(x0);
    let x2 = crc_bit(x1);
    let x3 = crc_bit(x2);
    let x4 = crc_bit(x3);
    let x5 = crc_bit(x4);
    let x6 = crc_bit(x5);
    let x7 = crc_bit(x6);
    let x8 = crc_bit(x7);
    reveal_with_fuel(crc_bits, 9);
    assert(x8 == (x0 >> 8) ^ 0x0) by (bit_vector)
        requires
            x0 & 0xff == 0x0,
            x1 == (if x0 & 1 == 1 { (x0 >> 1) ^ 0xedb8_8320 } else { x0 >> 1 }),
            x2 == (if x1 & 1 == 1 { (x1 >> 1) ^ 0xedb8_8320 } else { x1 >> 1 }),
            x3 == (if x2 & 1 == 1 { (x2 >> 1) ^ 0xedb8_8320 } else { x2 >> 1 }),
            x4 == (if x3 & 1 == 1 { (x3 >> 1) ^ 0xedb8_8320 } else { x3 >> 1 }),
            x5 == (if x4 & 1 == 1 { (x4 >> 1) ^ 0xedb8_8320 } else { x4 >> 1 }),
            x6 == (if x5 & 1 == 1 { (x5 >> 1) ^ 0xedb8_8320 } else { x5 >> 1 }),
            x7 == (if x6 & 1 == 1 { (x6 >> 1) ^ 0xedb8_8320 } else { x6 >> 1 }),
            x8 == (if x7 & 1 == 1 { (x7 >> 1) ^ 0xedb8_8320 } else { x7 >> 1 }),
    ;
}

proof fn lemma_byte_3(x0: u32)
    requires
        x0 & 0xff == 0xed,
    ensures
        crc_bits(x0, 8) == (x0 >> 8) ^ 0xdebb9ec5,
{
    let x1 = crc_bit(x0);
    let x2 = crc_bit(x1);
    let x3 = crc_bit(x2);
    let x4 = crc_bit(x3);
    let x5 = crc_bit(x4);
    let x6 = crc_bit(x5);
    let x7 = crc_bit(x6);
    let x8 = crc_bit(x7);
    reveal_with_fuel(crc_bits, 9);
    assert(x8 == (x0 >> 8) ^ 0xdebb9ec5) by (bit_vector)
        requires
            x0 & 0xff == 0xed,
            x1 == (if x0 & 1 == 1 { (x0 >> 1) ^ 0xedb8_8320 } else { x0 >> 1 }),
            x2 == (if x1 & 1 == 1 { (x1 >> 1) ^ 0xedb8_8320 } else { x1 >> 1 }),
            x3 == (if x2 & 1 == 1 { (x2 >> 1) ^ 0xedb8_8320 } else { x2 >> 1 }),
            x4 == (if x3 & 1 == 1 { (x3 >> 1) ^ 0xedb8_8320 } else { x3 >> 1 }),
            x5 == (if x4 & 1 == 1 { (x4 >> 1) ^ 0xedb8_8320 } else { x4 >> 1 }),
            x6 == (if x5 & 1 == 1 { (x5 >> 1) ^ 0xedb8_8320 } else { x5 >> 1 }),
            x7 == (if x6 & 1 == 1 { (x6 >> 1) ^ 0xedb8_8320 } else { x6 >> 1 }),
            x8 == (if x7 & 1 == 1 { (x7 >> 1) ^ 0xedb8_8320 } else { x7 >> 1 }),
    ;
}

/// Division by the scale drops what is under one unit, towards zero.
pub proof fn law_notional_drops_less_than_a_unit(x: int)
    ensures
        x >= 0 ==> unscaled(x) * 1_0000_0000 <= x < (unscaled(x) + 1) * 1_0000_0000,
        unscaled(-x) == -unscaled(x),
{
}

proof fn lemma_value_joined(a: Seq<char>, b: Seq<char>)
    ensures
        value(a + b) == value(a) * pow10(b.len()) + value(b),
    decreases b.len(),
{
    if b.len() == 0 {
        assert(a + b == a);
        assert(value(a) * pow10(0) == value(a)) by (nonlinear_arith)
            requires
                pow10(0) == 1,
        ;
    } else {
        let f = b.drop_last();
        lemma_value_joined(a, f);
        assert((a + b).drop_last() == a + f);
        assert((a + b).last() == b.last());
        let v = value(a);
        let p = pow10(f.len());
        assert((v * p + value(f)) * 10 == v * (10 * p) + value(f) * 10) by (nonlinear_arith);
        assert(pow10(b.len()) == 10 * p);
    }
}

proof fn lemma_exponent(t: Seq<char>, i: int, p: int)
    requires
        0 <= i <= p < t.len(),
        forall|j: int| i <= j < p ==> #[trigger] t[j] != 'e' && t[j] != 'E',
        t[p] == 'e' || t[p] == 'E',
    ensures
        exponent_from(t, i) == p,
    decreases p - i,
{
    if i < p {
        lemma_exponent(t, i + 1, p);
    }
}

proof fn lemma_pow10_product(a: nat, b: nat)
    ensures
        pow10(a) * pow10(b) == pow10(a + b),
        pow10(a) > 0,
    decreases a,
{
    if a == 0 {
        assert(pow10(0) * pow10(b) == pow10(b)) by (nonlinear_arith)
            requires
                pow10(0) == 1,
        ;
    } else {
        lemma_pow10_product((a - 1) as nat, b);
        let p = pow10((a - 1) as nat);
        let q = pow10(b);
        assert((10 * p) * q == 10 * (p * q)) by (nonlinear_arith);
    }
}

/// An exponent moves the point: the number is its digits, each worth ten times as much for
/// each place that the point goes to the right, and a tenth for each to the left.
pub proof fn law_exponent_moves_the_point(a: Seq<char>, b: Seq<char>, n: Seq<char>, e: int)
    requires
        a.len() > 0,
        all_digits(a),
        all_digits(b),
        signed(n) == Some(e),
        -999 <= e <= 999,
        0 < a.len() + e < a.len() + b.len(),
        b.len() - e <= 8,
        value(a + b) * pow10((8 - b.len() + e) as nat) <= i64::MAX,
    ensures
        number8(a + seq!['.'] + b + seq!['e'] + n) == Ok::<i64, ParseFixedError>(
            (value(a + b) * pow10((8 - b.len() + e) as nat)) as i64,
        ),
{
    let m = a + seq!['.'] + b;
    let t = m + seq!['e'] + n;
    let p = m.len() as int;
    assert forall|j: int| 0 <= j < p implies #[trigger] t[j] != 'e' && t[j] != 'E' by {
        assert(t[j] == m[j]);
        if j < a.len() {
            assert(is_digit(a[j]));
        } else if j > a.len() {
            assert(is_digit(b[j - a.len() - 1]));
        }
    }
    lemma_exponent(t, 0, p);
    assert(t.take(p) == m);
    assert(t.skip(p + 1) == n);
    assert(is_digit(a[0]) && t[0] == a[0]);
    assert forall|j: int| 0 <= j < a.len() implies #[trigger] m[j] != '.' by {
        assert(is_digit(a[j]));
    }
    lemma_point(m, 0, a.len() as int);
    let q = a.len() + e;
    let d = a + b;
    assert(m.take(a.len() as int) + m.skip(a.len() as int + 1) == d);
    let x = d.take(q);
    let y = d.skip(q);
    assert(shifted(m, e) == x + seq!['.'] + y);
    assert(x + y == d);
    assert forall|j: int| 0 <= j < d.len() implies is_digit(#[trigger] d[j]) by {
        if j < a.len() {
            assert(is_digit(a[j]));
        } else {
            assert(is_digit(b[j - a.len()]));
        }
    }
    assert(all_digits(x) && all_digits(y));
    lemma_value_joined(x, y);
    lemma_value_nonneg(x);
    lemma_value_nonneg(y);
    let k = (8 - y.len()) as nat;
    lemma_pow10_product(y.len(), k);
    lemma_pow10_product(k, 0);
    reveal_with_fuel(pow10, 9);
    assert(pow10(8) == 1_0000_0000);
    let vx = value(x);
    let vy = value(y);
    let py = pow10(y.len());
    let pk = pow10(k);
    assert((vx * py + vy) * pk == vx * (py * pk) + vy * pk) by (nonlinear_arith);
    assert(vx * (py * pk) == vx * 1_0000_0000);
    assert(vy * pk >= 0) by (nonlinear_arith)
        requires
            vy >= 0,
            pk > 0,
    ;
    assert(vx <= i64::MAX);
    law_decimal_is_its_digits(x, y);
}

} // verus!

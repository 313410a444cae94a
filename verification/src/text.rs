//! Decimal text.

use vstd::prelude::*;
use vstd::string::StringExecFns;

verus! {

/// `String::push`: appends the character.
pub assume_specification[ String::push ](s: &mut String, c: char)
    ensures
        final(s)@ == old(s)@.push(c),
;

/// `c` is an ASCII decimal digit.
pub open spec fn is_digit(c: char) -> bool {
    '0' <= c && c <= '9'
}

/// The value of a decimal digit.
pub open spec fn digit_value(c: char) -> int {
    c as int - '0' as int
}

/// The digit with value `d`.
pub open spec fn digit_char(d: int) -> char {
    (48 + d) as char
}

/// Every character of `t` is a decimal digit.
pub open spec fn all_digits(t: Seq<char>) -> bool {
    forall|i: int| 0 <= i < t.len() ==> is_digit(#[trigger] t[i])
}

/// The number that the decimal digits `t` write.
pub open spec fn value(t: Seq<char>) -> int
    decreases t.len(),
{
    if t.len() == 0 {
        0
    } else {
        value(t.drop_last()) * 10 + digit_value(t.last())
    }
}

/// The decimal digits of `n`, without leading zeros.
pub open spec fn dec(n: nat) -> Seq<char>
    decreases n,
{
    if n < 10 {
        seq![digit_char(n as int)]
    } else {
        dec(n / 10).push(digit_char((n % 10) as int))
    }
}

/// `v` in decimal, with a leading `-` where it is negative.
pub open spec fn int_text(v: int) -> Seq<char> {
    if v < 0 {
        seq!['-'] + dec((-v) as nat)
    } else {
        dec(v as nat)
    }
}

/// The decimal digits of `n` write `n`.
pub proof fn lemma_dec_value(n: nat)
    ensures
        value(dec(n)) == n,
        all_digits(dec(n)),
        dec(n).len() > 0,
    decreases n,
{
    if n >= 10 {
        lemma_dec_value(n / 10);
        assert(dec(n).drop_last() =~= dec(n / 10));
    } else {
        assert(dec(n).drop_last() =~= Seq::<char>::empty());
        assert(value(Seq::<char>::empty()) == 0);
    }
}

/// A number written in digits is not negative.
pub proof fn lemma_value_nonneg(t: Seq<char>)
    requires
        all_digits(t),
    ensures
        0 <= value(t),
    decreases t.len(),
{
    if t.len() > 0 {
        lemma_value_nonneg(t.drop_last());
        assert(is_digit(t[t.len() - 1]));
    }
}

/// Reading more digits never gives a smaller number.
pub proof fn lemma_value_grows(t: Seq<char>, i: int)
    requires
        all_digits(t),
        0 <= i <= t.len(),
    ensures
        value(t.take(i)) <= value(t),
    decreases t.len() - i,
{
    if i < t.len() {
        lemma_value_grows(t, i + 1);
        let u = t.take(i + 1);
        assert(u.drop_last() =~= t.take(i));
        assert(is_digit(t[i]));
        lemma_value_nonneg(t.take(i));
    } else {
        assert(t.take(i) =~= t);
    }
}

/// The characters of `s`.
pub fn chars_of(s: &str) -> (v: Vec<char>)
    ensures
        v@ == s@,
{
    broadcast use vstd::string::axiom_spec_iter;

    let mut v: Vec<char> = Vec::new();
    for c in it: s.chars()
        invariant
            v@ == it.seq().take(it.index()),
            it.seq() == s@,
    {
        v.push(c);
    }
    v
}

/// Whether two texts are the same.
pub fn same_text(a: &str, b: &str) -> (r: bool)
    ensures
        r == (a@ == b@),
{
    let x = chars_of(a);
    let y = chars_of(b);
    if x.len() != y.len() {
        return false;
    }
    let mut i: usize = 0;
    while i < x.len()
        invariant
            i <= x.len(),
            x.len() == y.len(),
            x@ == a@,
            y@ == b@,
            forall|j: int| 0 <= j < i ==> x@[j] == y@[j],
        decreases x.len() - i,
    {
        if x[i] != y[i] {
            return false;
        }
        i += 1;
    }
    assert(x@ =~= y@);
    true
}

/// Appends the decimal digits of `n`.
pub fn push_dec(out: &mut String, n: u128)
    ensures
        final(out)@ == old(out)@ + dec(n as nat),
    decreases n,
{
    if n >= 10 {
        push_dec(out, n / 10);
    }
    let d: u8 = (n % 10) as u8;
    out.push((48u8 + d) as char);
}

/// Appends `v` in decimal.
pub fn push_int(out: &mut String, v: i128)
    ensures
        final(out)@ == old(out)@ + int_text(v as int),
{
    if v < 0 {
        out.push('-');
        let n: u128 = if v == i128::MIN {
            0x8000_0000_0000_0000_0000_0000_0000_0000u128
        } else {
            (-v) as u128
        };
        push_dec(out, n);
        assert(out@ =~= old(out)@ + int_text(v as int));
    } else {
        push_dec(out, v as u128);
    }
}

/// Appends the characters `t[from..]`.
pub fn push_chars(out: &mut String, t: &Vec<char>, from: usize, to: usize)
    requires
        from <= to <= t@.len(),
    ensures
        final(out)@ == old(out)@ + t@.subrange(from as int, to as int),
{
    let mut i: usize = from;
    assert(t@.subrange(from as int, from as int) =~= Seq::<char>::empty());
    while i < to
        invariant
            from <= i <= to <= t@.len(),
            out@ == old(out)@ + t@.subrange(from as int, i as int),
        decreases to - i,
    {
        out.push(t[i]);
        assert(t@.subrange(from as int, i + 1) =~= t@.subrange(from as int, i as int).push(
            t@[i as int],
        ));
        i += 1;
    }
}

/// The `u64` that `t` writes: decimal digits, with an optional `+`.
pub open spec fn unsigned(t: Seq<char>) -> Option<u64> {
    let d = if t.len() > 0 && t[0] == '+' {
        t.skip(1)
    } else {
        t
    };
    if d.len() == 0 || !all_digits(d) || value(d) > u64::MAX {
        None
    } else {
        Some(value(d) as u64)
    }
}

/// Reads a `u64` in decimal.
pub fn parse_u64(s: &str) -> (r: Option<u64>)
    ensures
        r == unsigned(s@),
{
    let b = chars_of(s);
    let ghost t = s@;
    let start: usize = if b.len() > 0 && b[0] == '+' {
        1
    } else {
        0
    };
    let ghost d = if t.len() > 0 && t[0] == '+' {
        t.skip(1)
    } else {
        t
    };
    proof {
        assert(d =~= t.skip(start as int));
    }
    if start >= b.len() {
        return None;
    }
    let mut i: usize = start;
    let mut v: u64 = 0;
    assert(d.take(0) =~= Seq::<char>::empty());
    while i < b.len()
        invariant
            b@ == t,
            t == s@,
            start <= i <= b.len(),
            d == t.skip(start as int),
            d.len() > 0,
            unsigned(t) == (if d.len() == 0 || !all_digits(d) || value(d) > u64::MAX {
                None
            } else {
                Some(value(d) as u64)
            }),
            all_digits(d.take(i - start)),
            v == value(d.take(i - start)),
        decreases b.len() - i,
    {
        let c = b[i];
        let ghost k = i - start;
        assert(d[k] == c);
        if !(c >= '0' && c <= '9') {
            assert(!is_digit(d[k]));
            return None;
        }
        let x: u64 = (c as u32 - 48) as u64;
        let ghost u = d.take(k + 1);
        proof {
            assert(u.drop_last() =~= d.take(k));
            assert(u.last() == c);
        }
        if v > (0xffff_ffff_ffff_ffff - x) / 10 {
            proof {
                if all_digits(d) {
                    lemma_value_grows(d, k + 1);
                }
            }
            return None;
        }
        v = v * 10 + x;
        assert(all_digits(u)) by {
            assert forall|j: int| 0 <= j < u.len() implies is_digit(#[trigger] u[j]) by {
                if j < k {
                    assert(u[j] == d.take(k)[j]);
                }
            }
        }
        i += 1;
    }
    assert(d.take(i - start) =~= d);
    Some(v)
}

/// Whether `t` begins with `p`.
pub open spec fn starts(t: Seq<char>, p: Seq<char>) -> bool {
    p.len() <= t.len() && t.take(p.len() as int) == p
}

/// Whether `t` ends with `p`.
pub open spec fn ends(t: Seq<char>, p: Seq<char>) -> bool {
    p.len() <= t.len() && t.skip(t.len() - p.len()) == p
}

/// Whether `p` stands in `t` at position `i`.
pub open spec fn stands(t: Seq<char>, p: Seq<char>, i: int) -> bool {
    0 <= i && i + p.len() <= t.len() && t.subrange(i, i + p.len()) == p
}

/// Whether `p` stands somewhere in `t`.
pub open spec fn within(t: Seq<char>, p: Seq<char>) -> bool {
    exists|i: int| #[trigger] stands(t, p, i)
}

/// Whether `p` stands in `t` at position `i`.
pub fn stands_at(t: &Vec<char>, p: &Vec<char>, i: usize) -> (r: bool)
    ensures
        r == stands(t@, p@, i as int),
{
    if i > t.len() || p.len() > t.len() - i {
        return false;
    }
    let mut j: usize = 0;
    while j < p.len()
        invariant
            i + p.len() <= t.len(),
            j <= p.len(),
            forall|k: int| 0 <= k < j ==> t@[i + k] == #[trigger] p@[k],
        decreases p.len() - j,
    {
        if t[i + j] != p[j] {
            assert(t@.subrange(i as int, i + p.len())[j as int] == t@[i + j]);
            return false;
        }
        j += 1;
    }
    assert(t@.subrange(i as int, i + p.len()) =~= p@);
    true
}

/// Whether a text begins with another.
pub fn starts_with(s: &str, p: &str) -> (r: bool)
    ensures
        r == starts(s@, p@),
{
    let t = chars_of(s);
    let q = chars_of(p);
    assert(q@.len() <= t@.len() ==> t@.subrange(0, q@.len() as int) =~= t@.take(q@.len() as int));
    stands_at(&t, &q, 0)
}

/// Whether a text ends with another.
pub fn ends_with(s: &str, p: &str) -> (r: bool)
    ensures
        r == ends(s@, p@),
{
    let t = chars_of(s);
    let q = chars_of(p);
    if q.len() > t.len() {
        return false;
    }
    let i: usize = t.len() - q.len();
    assert(t@.subrange(i as int, i + q@.len()) =~= t@.skip(t@.len() - q@.len()));
    stands_at(&t, &q, i)
}

/// Whether a text holds another.
pub fn contains(s: &str, p: &str) -> (r: bool)
    ensures
        r == within(s@, p@),
{
    let t = chars_of(s);
    let q = chars_of(p);
    if q.len() > t.len() {
        return false;
    }
    let mut i: usize = 0;
    let last: usize = t.len() - q.len();
    while i <= last
        invariant
            t@ == s@,
            q@ == p@,
            last == t.len() - q.len(),
            i <= last + 1,
            t.len() <= usize::MAX,
            forall|j: int| 0 <= j < i ==> !#[trigger] stands(t@, q@, j),
        decreases last + 1 - i,
    {
        if stands_at(&t, &q, i) {
            return true;
        }
        if i == last {
            return false;
        }
        i += 1;
    }
    false
}

/// The characters `t[from..to]` as a text.
pub fn text_between(t: &Vec<char>, from: usize, to: usize) -> (r: String)
    requires
        from <= to <= t@.len(),
    ensures
        r@ == t@.subrange(from as int, to as int),
{
    let mut s = String::new();
    push_chars(&mut s, t, from, to);
    assert(s@ =~= t@.subrange(from as int, to as int));
    s
}

/// `t` between quotes, as `Debug` writes a `str`.
pub uninterp spec fn debugged(t: Seq<char>) -> Seq<char>;

/// `Debug` of a `str`: the text between quotes, with escapes for what cannot be printed.
/// The result is named: it depends on the text alone.
#[verifier::external_body]
pub(crate) fn debug_text(s: &str) -> (r: String)
    ensures
        r@ == debugged(s@),
{
    format!("{:?}", s)
}

/// `t` in lower case, as Unicode maps it.
pub uninterp spec fn lowercase(t: Seq<char>) -> Seq<char>;

/// `str::to_lowercase`. The result is named: it depends on the text alone.
#[verifier::external_body]
pub(crate) fn to_lowercase(s: &str) -> (r: String)
    ensures
        r@ == lowercase(s@),
{
    s.to_lowercase()
}

} // verus!

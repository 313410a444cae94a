//! Pieces, lines and words of a text.

use crate::text::{chars_of, text_between};
use vstd::prelude::*;

verus! {

/// The character is white space: it has the property `White_Space` of Unicode.
pub open spec fn whitespace(c: char) -> bool {
    let n = c as int;
    ||| 0x9 <= n <= 0xd
    ||| n == 0x20
    ||| n == 0x85
    ||| n == 0xa0
    ||| n == 0x1680
    ||| 0x2000 <= n <= 0x200a
    ||| n == 0x2028
    ||| n == 0x2029
    ||| n == 0x202f
    ||| n == 0x205f
    ||| n == 0x3000
}

/// `char::is_whitespace`: whether the character has the property `White_Space`.
pub assume_specification[ char::is_whitespace ](c: char) -> (r: bool)
    ensures
        r == whitespace(c),
;

/// `t` in upper case, as Unicode maps it.
pub uninterp spec fn uppercase(t: Seq<char>) -> Seq<char>;

/// `str::to_uppercase`. The result is named: it depends on the text alone.
#[verifier::external_body]
pub(crate) fn to_uppercase(s: &str) -> (r: String)
    ensures
        r@ == uppercase(s@),
{
    s.to_uppercase()
}

/// The pieces of a text between the places where `c` stands.
pub open spec fn pieces(t: Seq<char>, c: char) -> Seq<Seq<char>>
    decreases t.len(),
{
    if t.len() == 0 {
        seq![Seq::empty()]
    } else {
        let p = pieces(t.drop_last(), c);
        if t.last() == c {
            p.push(Seq::empty())
        } else {
            p.drop_last().push(p.last().push(t.last()))
        }
    }
}

/// The pieces of a text between the places where `c` stands (one at least).
pub fn split_on(s: &str, c: char) -> (r: Vec<String>)
    ensures
        r.deep_view() == pieces(s@, c),
        r@.len() > 0,
{
    let v = chars_of(s);
    let mut done: Vec<String> = Vec::new();
    let mut cur = String::new();
    let mut i: usize = 0;
    assert(v@.take(0) =~= Seq::<char>::empty());
    assert(done.deep_view().push(cur@) =~= seq![Seq::<char>::empty()]);
    while i < v.len()
        invariant
            i <= v@.len(),
            done.deep_view().push(cur@) == pieces(v@.take(i as int), c),
        decreases v@.len() - i,
    {
        let x = v[i];
        let ghost d0 = done.deep_view();
        let ghost c0 = cur@;
        let ghost p0 = pieces(v@.take(i as int), c);
        proof {
            assert(v@.take(i + 1).drop_last() =~= v@.take(i as int));
            assert(v@.take(i + 1).last() == x);
            assert(p0.drop_last() =~= d0);
            assert(p0.last() == c0);
        }
        if x == c {
            done.push(cur);
            cur = String::new();
            assert(done.deep_view() =~= d0.push(c0));
            assert(cur@ =~= Seq::<char>::empty());
        } else {
            cur.push(x);
        }
        i += 1;
    }
    let ghost d0 = done.deep_view();
    let ghost c0 = cur@;
    done.push(cur);
    assert(done.deep_view() =~= d0.push(c0));
    assert(v@.take(i as int) =~= s@);
    done
}

/// The position of the first `c`, from the `i`-th on.
pub open spec fn first_of(t: Seq<char>, c: char, i: int) -> Option<int>
    decreases t.len() - i,
{
    if i < 0 || i >= t.len() {
        None
    } else if t[i] == c {
        Some(i)
    } else {
        first_of(t, c, i + 1)
    }
}

/// What stands before and after the first `c`.
pub open spec fn cut(t: Seq<char>, c: char) -> Option<(Seq<char>, Seq<char>)> {
    match first_of(t, c, 0) {
        Some(i) => Some((t.take(i), t.skip(i + 1))),
        None => None,
    }
}

/// What stands before and after the first `c`.
pub fn split_once(s: &str, c: char) -> (r: Option<(String, String)>)
    ensures
        match r {
            Some((a, b)) => cut(s@, c) == Some((a@, b@)),
            None => cut(s@, c) is None,
        },
{
    let v = chars_of(s);
    let mut i: usize = 0;
    while i < v.len()
        invariant
            i <= v@.len(),
            v@ == s@,
            first_of(v@, c, 0) == first_of(v@, c, i as int),
        decreases v@.len() - i,
    {
        if v[i] == c {
            let a = text_between(&v, 0, i);
            let b = text_between(&v, i + 1, v.len());
            assert(a@ =~= s@.take(i as int));
            assert(b@ =~= s@.skip(i + 1));
            return Some((a, b));
        }
        i += 1;
    }
    None
}

/// A text without the white space at its start.
pub open spec fn trimmed_start(t: Seq<char>) -> Seq<char>
    decreases t.len(),
{
    if t.len() > 0 && whitespace(t[0]) {
        trimmed_start(t.skip(1))
    } else {
        t
    }
}

/// A text without the white space at its end.
pub open spec fn trimmed_end(t: Seq<char>) -> Seq<char>
    decreases t.len(),
{
    if t.len() > 0 && whitespace(t.last()) {
        trimmed_end(t.drop_last())
    } else {
        t
    }
}

/// A text without the white space at its ends.
pub open spec fn trimmed(t: Seq<char>) -> Seq<char> {
    trimmed_end(trimmed_start(t))
}

/// A text without the white space at its ends.
pub fn trim(s: &str) -> (r: String)
    ensures
        r@ == trimmed(s@),
{
    let v = chars_of(s);
    let mut a: usize = 0;
    assert(v@.skip(0) =~= v@);
    while a < v.len() && v[a].is_whitespace()
        invariant
            a <= v@.len(),
            v@ == s@,
            trimmed_start(v@.skip(a as int)) == trimmed_start(s@),
        decreases v@.len() - a,
    {
        assert(v@.skip(a as int).skip(1) =~= v@.skip(a + 1));
        a += 1;
    }
    let ghost t = v@.skip(a as int);
    assert(trimmed_start(t) == t);
    let mut b: usize = v.len();
    assert(v@.subrange(a as int, b as int) =~= t);
    while b > a && v[b - 1].is_whitespace()
        invariant
            a <= b <= v@.len(),
            v@ == s@,
            trimmed_end(v@.subrange(a as int, b as int)) == trimmed_end(t),
        decreases b,
    {
        assert(v@.subrange(a as int, b as int).drop_last() =~= v@.subrange(a as int, b - 1));
        b -= 1;
    }
    assert(trimmed_end(v@.subrange(a as int, b as int)) == v@.subrange(a as int, b as int));
    text_between(&v, a, b)
}

/// The words of a text so far, and the word in course.
pub open spec fn words_so_far(t: Seq<char>) -> (Seq<Seq<char>>, Seq<char>)
    decreases t.len(),
{
    if t.len() == 0 {
        (Seq::empty(), Seq::empty())
    } else {
        let (done, cur) = words_so_far(t.drop_last());
        if !whitespace(t.last()) {
            (done, cur.push(t.last()))
        } else if cur.len() > 0 {
            (done.push(cur), Seq::empty())
        } else {
            (done, cur)
        }
    }
}

/// The words of a text, apart from white space.
pub open spec fn words(t: Seq<char>) -> Seq<Seq<char>> {
    let (done, cur) = words_so_far(t);
    if cur.len() > 0 {
        done.push(cur)
    } else {
        done
    }
}

/// The words of a text, apart from white space.
pub fn split_words(s: &str) -> (r: Vec<String>)
    ensures
        r.deep_view() == words(s@),
{
    let v = chars_of(s);
    let mut done: Vec<String> = Vec::new();
    let mut cur = String::new();
    let mut empty = true;
    let mut i: usize = 0;
    assert(v@.take(0) =~= Seq::<char>::empty());
    assert(done.deep_view() =~= Seq::<Seq<char>>::empty());
    assert(cur@ =~= Seq::<char>::empty());
    while i < v.len()
        invariant
            i <= v@.len(),
            empty == (cur@.len() == 0),
            (done.deep_view(), cur@) == words_so_far(v@.take(i as int)),
        decreases v@.len() - i,
    {
        let x = v[i];
        let ghost d0 = done.deep_view();
        let ghost c0 = cur@;
        assert(v@.take(i + 1).drop_last() =~= v@.take(i as int));
        if !x.is_whitespace() {
            cur.push(x);
            empty = false;
        } else if !empty {
            done.push(cur);
            cur = String::new();
            empty = true;
            assert(done.deep_view() =~= d0.push(c0));
            assert(cur@ =~= Seq::<char>::empty());
        }
        i += 1;
    }
    assert(v@.take(i as int) =~= s@);
    if !empty {
        let ghost d0 = done.deep_view();
        let ghost c0 = cur@;
        done.push(cur);
        assert(done.deep_view() =~= d0.push(c0));
    }
    done
}

/// A line without the carriage return that belongs to its end.
pub open spec fn line_body(t: Seq<char>) -> Seq<char> {
    if t.len() > 0 && t.last() == '\r' {
        t.drop_last()
    } else {
        t
    }
}

/// The lines of a text: each ends with a line feed, with or without a carriage return
/// before it; the last one may lack its end.
pub open spec fn lines(t: Seq<char>) -> Seq<Seq<char>> {
    let p = pieces(t, '\n');
    let whole = Seq::new((p.len() - 1) as nat, |i: int| line_body(p[i]));
    if p.last().len() == 0 {
        whole
    } else {
        whole.push(p.last())
    }
}

/// A line without the carriage return that belongs to its end.
fn body_of(s: &str) -> (r: String)
    ensures
        r@ == line_body(s@),
{
    let v = chars_of(s);
    let n: usize = if v.len() > 0 && v[v.len() - 1] == '\r' {
        v.len() - 1
    } else {
        v.len()
    };
    let r = text_between(&v, 0, n);
    assert(r@ =~= line_body(s@));
    r
}

/// The lines of a text.
pub fn split_lines(s: &str) -> (r: Vec<String>)
    ensures
        r.deep_view() == lines(s@),
{
    let p = split_on(s, '\n');
    let ghost ps = pieces(s@, '\n');
    let ghost whole = Seq::new((ps.len() - 1) as nat, |i: int| line_body(ps[i]));
    let mut r: Vec<String> = Vec::new();
    let mut i: usize = 0;
    assert(ps.len() == p@.len());
    assert(r.deep_view() =~= whole.take(0));
    while i < p.len() - 1
        invariant
            p@.len() > 0,
            i < p@.len(),
            ps == p.deep_view(),
            ps.len() == p@.len(),
            whole == Seq::new((ps.len() - 1) as nat, |i: int| line_body(ps[i])),
            r.deep_view() == whole.take(i as int),
        decreases p@.len() - i,
    {
        let ghost r0 = r.deep_view();
        let l = body_of(p[i].as_str());
        assert(ps[i as int] == p@[i as int]@);
        let ghost lv = l@;
        r.push(l);
        assert(r.deep_view() =~= r0.push(lv));
        assert(r.deep_view() =~= whole.take(i + 1));
        i += 1;
    }
    assert(whole.take(i as int) =~= whole);
    let last = chars_of(p[i].as_str());
    assert(ps.last() == p@[i as int]@);
    if last.len() > 0 {
        let ghost r0 = r.deep_view();
        let l = text_between(&last, 0, last.len());
        assert(l@ =~= ps.last());
        let ghost lv = l@;
        r.push(l);
        assert(r.deep_view() =~= r0.push(lv));
    }
    r
}

/// A character with its ASCII capital made small.
pub open spec fn small(c: char) -> char {
    if 'A' <= c <= 'Z' {
        (c as int + 32) as char
    } else {
        c
    }
}

/// Two texts are the same, but for ASCII capitals.
pub open spec fn alike(a: Seq<char>, b: Seq<char>) -> bool {
    a.len() == b.len() && forall|i: int| 0 <= i < a.len() ==> small(#[trigger] a[i]) == small(b[i])
}

fn small_of(c: char) -> (r: char)
    ensures
        r == small(c),
{
    if 'A' <= c && c <= 'Z' {
        (c as u8 + 32) as char
    } else {
        c
    }
}

/// Whether two texts are the same, but for ASCII capitals.
pub fn same_but_case(a: &str, b: &str) -> (r: bool)
    ensures
        r == alike(a@, b@),
{
    let x = chars_of(a);
    let y = chars_of(b);
    if x.len() != y.len() {
        return false;
    }
    let mut i: usize = 0;
    while i < x.len()
        invariant
            i <= x@.len(),
            x@.len() == y@.len(),
            x@ == a@,
            y@ == b@,
            forall|j: int| 0 <= j < i ==> small(#[trigger] x@[j]) == small(y@[j]),
        decreases x@.len() - i,
    {
        if small_of(x[i]) != small_of(y[i]) {
            assert(small(a@[i as int]) != small(b@[i as int]));
            return false;
        }
        i += 1;
    }
    true
}

/// A text without a character.
pub open spec fn without(t: Seq<char>, c: char) -> Seq<char>
    decreases t.len(),
{
    if t.len() == 0 {
        Seq::empty()
    } else if t.last() == c {
        without(t.drop_last(), c)
    } else {
        without(t.drop_last(), c).push(t.last())
    }
}

/// A text without a character.
pub fn strip_char(s: &str, c: char) -> (r: String)
    ensures
        r@ == without(s@, c),
{
    let v = chars_of(s);
    let mut r = String::new();
    let mut i: usize = 0;
    assert(v@.take(0) =~= Seq::<char>::empty());
    assert(r@ =~= Seq::<char>::empty());
    while i < v.len()
        invariant
            i <= v@.len(),
            r@ == without(v@.take(i as int), c),
        decreases v@.len() - i,
    {
        assert(v@.take(i + 1).drop_last() =~= v@.take(i as int));
        if v[i] != c {
            r.push(v[i]);
        }
        i += 1;
    }
    assert(v@.take(i as int) =~= s@);
    r
}

} // verus!

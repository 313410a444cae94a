//! Records in JSON: an object in which each field comes once at most, or an array with the
//! fields in their order.

use crate::json::{json_array, json_object, json_string, read_array, read_object, read_string, seen};
use crate::text::{chars_of, dec, push_dec, same_text, text_between};
use vstd::prelude::*;
use vstd::string::StringExecFns;

verus! {

/// A text of JSON read up to some place.
#[verifier::ext_equal]
pub struct Scan {
    /// How many objects and arrays are open.
    pub depth: int,
    /// A string is open.
    pub quoted: bool,
    /// The next character of the string stands for itself.
    pub escaped: bool,
    /// Where the last string starts.
    pub from: int,
    /// Where the last string that was closed ends.
    pub to: int,
    /// The strings in front of the colons of the outermost object.
    pub keys: Seq<Seq<char>>,
}

/// Nothing was read.
pub open spec fn scan_start() -> Scan {
    Scan { depth: 0, quoted: false, escaped: false, from: 0, to: 0, keys: Seq::empty() }
}

/// One character more.
pub open spec fn scan_next(s: Scan, t: Seq<char>, i: int) -> Scan {
    let c = t[i];
    if s.quoted {
        if s.escaped {
            Scan { escaped: false, ..s }
        } else if c == '\\' {
            Scan { escaped: true, ..s }
        } else if c == '"' {
            Scan { quoted: false, to: i + 1, ..s }
        } else {
            s
        }
    } else if c == '"' {
        Scan { quoted: true, from: i, ..s }
    } else if c == '{' || c == '[' {
        Scan { depth: s.depth + 1, ..s }
    } else if c == '}' || c == ']' {
        Scan { depth: s.depth - 1, ..s }
    } else if c == ':' && s.depth == 1 {
        Scan { keys: s.keys.push(t.subrange(s.from, s.to)), ..s }
    } else {
        s
    }
}

/// The first `n` characters.
pub open spec fn scan(t: Seq<char>, n: int) -> Scan
    decreases n,
{
    if n <= 0 {
        scan_start()
    } else {
        scan_next(scan(t, n - 1), t, n - 1)
    }
}

/// The keys of an object as they are written, in order.
pub open spec fn raw_keys(t: Seq<char>) -> Seq<Seq<char>> {
    scan(t, t.len() as int).keys
}

/// What some keys say.
pub open spec fn decoded(raw: Seq<Seq<char>>) -> Seq<Seq<char>>
    decreases raw.len(),
{
    if raw.len() == 0 {
        Seq::empty()
    } else {
        let d = decoded(raw.drop_last());
        match json_string(raw.last()) {
            Ok(k) => d.push(k),
            Err(_) => d,
        }
    }
}

/// How often a name comes.
pub open spec fn times(names: Seq<Seq<char>>, name: Seq<char>) -> nat
    decreases names.len(),
{
    if names.len() == 0 {
        0
    } else {
        times(names.drop_last(), name) + (if names.last() == name {
            1nat
        } else {
            0nat
        })
    }
}

/// The first of some fields, from the `i`-th on, that comes more than once.
pub open spec fn repeated(keys: Seq<Seq<char>>, fields: Seq<Seq<char>>, i: int) -> Option<Seq<char>>
    decreases fields.len() - i,
{
    if i < 0 || i >= fields.len() {
        None
    } else if times(keys, fields[i]) > 1 {
        Some(fields[i])
    } else {
        repeated(keys, fields, i + 1)
    }
}

/// The message for a field that comes twice.
pub open spec fn duplicate(name: Seq<char>) -> Seq<char> {
    "duplicate field `"@ + name + "`"@
}

/// The message for an array of the wrong length.
pub open spec fn wrong_length(n: nat) -> Seq<char> {
    "invalid length "@ + dec(n)
}

/// The fields of a record, each with the raw text of its value: those of an object where
/// none of the fields comes twice (any other key may), or the elements of an array, which
/// has at least the first `need` fields.
pub open spec fn record_of(text: Seq<char>, fields: Seq<Seq<char>>, need: nat) -> Result<
    Seq<(Seq<char>, Seq<char>)>,
    Seq<char>,
> {
    match json_object(text) {
        Ok(f) => match repeated(decoded(raw_keys(text)), fields, 0) {
            Some(n) => Err(duplicate(n)),
            None => Ok(f),
        },
        Err(e) => match json_array(text) {
            Ok(v) => if need <= v.len() <= fields.len() {
                Ok(Seq::new(v.len(), |i: int| (fields[i], v[i])))
            } else {
                Err(wrong_length(v.len()))
            },
            Err(_) => Err(e),
        },
    }
}

/// The keys of an object, in order.
fn keys_of(text: &str) -> (r: Vec<String>)
    ensures
        r.deep_view() == decoded(raw_keys(text@)),
{
    let t = chars_of(text);
    let mut depth: i128 = 0;
    let mut quoted: bool = false;
    let mut escaped: bool = false;
    let mut from: usize = 0;
    let mut to: usize = 0;
    let ghost mut raw: Seq<Seq<char>> = Seq::empty();
    let mut keys: Vec<String> = Vec::new();
    assert(keys.deep_view() =~= decoded(raw));
    let mut i: usize = 0;
    while i < t.len()
        invariant
            t@ == text@,
            i <= t@.len(),
            -i <= depth <= i,
            from <= i,
            to <= i,
            !quoted ==> from <= to,
            scan(t@, i as int) == (Scan {
                depth: depth as int,
                quoted,
                escaped,
                from: from as int,
                to: to as int,
                keys: raw,
            }),
            keys.deep_view() == decoded(raw),
        decreases t@.len() - i,
    {
        let c = t[i];
        assert(scan(t@, i + 1) == scan_next(scan(t@, i as int), t@, i as int));
        if quoted {
            if escaped {
                escaped = false;
            } else if c == '\\' {
                escaped = true;
            } else if c == '"' {
                quoted = false;
                to = i + 1;
            }
        } else if c == '"' {
            quoted = true;
            from = i;
        } else if c == '{' || c == '[' {
            depth = depth + 1;
        } else if c == '}' || c == ']' {
            depth = depth - 1;
        } else if c == ':' && depth == 1 {
            let k = text_between(&t, from, to);
            let ghost before = keys.deep_view();
            let read = read_string(k.as_str());
            proof {
                assert(raw.push(k@).drop_last() =~= raw);
                raw = raw.push(k@);
            }
            if let Ok(name) = read {
                keys.push(name);
                assert(keys.deep_view() =~= before.push(name@));
            }
        }
        i = i + 1;
    }
    keys
}

/// Whether a name comes more than once.
fn comes_twice(names: &Vec<String>, name: &str) -> (r: bool)
    ensures
        r == (times(names.deep_view(), name@) > 1),
{
    let ghost d = names.deep_view();
    let mut n: usize = 0;
    let mut i: usize = 0;
    while i < names.len()
        invariant
            d == names.deep_view(),
            d.len() == names@.len(),
            n <= i <= names@.len(),
            n == times(d.take(i as int), name@),
        decreases names@.len() - i,
    {
        assert(d.take(i + 1).drop_last() =~= d.take(i as int));
        assert(d[i as int] == names@[i as int]@);
        if same_text(names[i].as_str(), name) {
            n = n + 1;
        }
        i = i + 1;
    }
    assert(d.take(i as int) =~= d);
    n > 1
}

/// Reads a record with the given fields, of which an array holds at least the first `need`.
pub(crate) fn read_record(text: &str, fields: &[&str], need: usize) -> (r: Result<
    Vec<(String, String)>,
    String,
>)
    ensures
        seen(r) == record_of(text@, fields.deep_view(), need as nat),
{
    let ghost names = fields.deep_view();
    match read_object(text) {
        Ok(f) => {
            let keys = keys_of(text);
            let ghost d = keys.deep_view();
            let mut i: usize = 0;
            while i < fields.len()
                invariant
                    i <= fields@.len(),
                    names == fields.deep_view(),
                    names.len() == fields@.len(),
                    d == keys.deep_view(),
                    d == decoded(raw_keys(text@)),
                    repeated(d, names, 0) == repeated(d, names, i as int),
                    json_object(text@) is Ok,
                decreases fields@.len() - i,
            {
                assert(names[i as int] == fields@[i as int]@);
                if comes_twice(&keys, fields[i]) {
                    let mut e = String::from_str("duplicate field `");
                    e.append(fields[i]);
                    e.append("`");
                    return Err(e);
                }
                i = i + 1;
            }
            Ok(f)
        },
        Err(e) => match read_array(text) {
            Ok(v) => {
                if v.len() < need || v.len() > fields.len() {
                    let mut m = String::from_str("invalid length ");
                    push_dec(&mut m, v.len() as u128);
                    return Err(m);
                }
                let ghost vs = v.deep_view();
                let mut f: Vec<(String, String)> = Vec::new();
                let mut i: usize = 0;
                while i < v.len()
                    invariant
                        i <= v@.len() <= fields@.len(),
                        names == fields.deep_view(),
                        names.len() == fields@.len(),
                        vs == v.deep_view(),
                        vs.len() == v@.len(),
                        f.deep_view() == Seq::new(i as nat, |j: int| (names[j], vs[j])),
                    decreases v@.len() - i,
                {
                    assert(names[i as int] == fields@[i as int]@);
                    assert(vs[i as int] == v@[i as int]@);
                    let ghost before = f.deep_view();
                    let name = String::from_str(fields[i]);
                    let value = String::from_str(v[i].as_str());
                    f.push((name, value));
                    assert(f.deep_view() =~= before.push((name@, value@)));
                    i = i + 1;
                    assert(f.deep_view() =~= Seq::new(i as nat, |j: int| (names[j], vs[j])));
                }
                Ok(f)
            },
            Err(_) => Err(e),
        },
    }
}

} // verus!

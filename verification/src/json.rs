//! JSON read one level at a time.
//!
//! The grammar is the one of `serde_json`; what each value means is decided here.
//! A record is taken as its fields, each with the raw text of its value, so that
//! numbers never go through floating point.

use crate::text::{digit_char, same_text};
use std::collections::BTreeMap;
use vstd::prelude::*;
use vstd::string::StringExecFns;

verus! {

/// A result seen through the views of its value and of its message.
pub open spec fn seen<T: DeepView>(r: Result<T, String>) -> Result<T::V, Seq<char>> {
    match r {
        Ok(v) => Ok(v.deep_view()),
        Err(e) => Err(e@),
    }
}

/// What `serde_json` reads of a text as an object: the key and the raw text of each
/// value, in the order of the keys; or its message.
pub uninterp spec fn json_object(text: Seq<char>) -> Result<
    Seq<(Seq<char>, Seq<char>)>,
    Seq<char>,
>;

/// What `serde_json` reads of a text as an array: the raw text of each element; or its
/// message.
pub uninterp spec fn json_array(text: Seq<char>) -> Result<Seq<Seq<char>>, Seq<char>>;

/// What `serde_json` reads of a text as a string without escapes; or its message.
pub uninterp spec fn json_str(text: Seq<char>) -> Result<Seq<char>, Seq<char>>;

/// What `serde_json` reads of a text as a string; or its message.
pub uninterp spec fn json_string(text: Seq<char>) -> Result<Seq<char>, Seq<char>>;

/// What `serde_json` reads of a text as a `u64`; or its message.
pub uninterp spec fn json_u64(text: Seq<char>) -> Result<u64, Seq<char>>;

/// What `serde_json` reads of a text as an `i64`; or its message.
pub uninterp spec fn json_i64(text: Seq<char>) -> Result<i64, Seq<char>>;

/// What `serde_json` reads of a text as a `bool`; or its message.
pub uninterp spec fn json_bool(text: Seq<char>) -> Result<bool, Seq<char>>;

/// A hexadecimal digit, in lower case.
pub open spec fn hex_char(d: int) -> char {
    if d < 10 {
        digit_char(d)
    } else {
        (87 + d) as char
    }
}

/// A character inside a JSON string: quotes, backslashes and control characters are
/// escaped.
pub open spec fn json_char(c: char) -> Seq<char> {
    let n = c as int;
    if c == '"' || c == '\\' {
        seq!['\\', c]
    } else if n == 8 {
        seq!['\\', 'b']
    } else if n == 9 {
        seq!['\\', 't']
    } else if n == 10 {
        seq!['\\', 'n']
    } else if n == 12 {
        seq!['\\', 'f']
    } else if n == 13 {
        seq!['\\', 'r']
    } else if n < 32 {
        seq!['\\', 'u', '0', '0', hex_char(n / 16), hex_char(n % 16)]
    } else {
        seq![c]
    }
}

/// The characters of a text inside a JSON string.
pub open spec fn json_chars(text: Seq<char>) -> Seq<char>
    decreases text.len(),
{
    if text.len() == 0 {
        Seq::empty()
    } else {
        json_chars(text.drop_last()) + json_char(text.last())
    }
}

/// A text as a JSON string.
pub open spec fn json_quoted(text: Seq<char>) -> Seq<char> {
    seq!['"'] + json_chars(text) + seq!['"']
}

/// `serde_json::from_str` into a `BTreeMap` of raw values. The result is named: it
/// depends on the text alone. Of a key that comes twice the map keeps the last value.
#[verifier::external_body]
pub(crate) fn read_object(text: &str) -> (r: Result<Vec<(String, String)>, String>)
    ensures
        seen(r) == json_object(text@),
{
    serde_json::from_str::<BTreeMap<String, Box<serde_json::value::RawValue>>>(text)
        .map(|m| m.into_iter().map(|(k, v)| (k, v.get().to_string())).collect())
        .map_err(|e| e.to_string())
}

/// `serde_json::from_str` into a `Vec` of raw values. The result is named: it depends on
/// the text alone.
#[verifier::external_body]
pub(crate) fn read_array(text: &str) -> (r: Result<Vec<String>, String>)
    ensures
        seen(r) == json_array(text@),
{
    serde_json::from_str::<Vec<Box<serde_json::value::RawValue>>>(text)
        .map(|m| m.into_iter().map(|v| v.get().to_string()).collect())
        .map_err(|e| e.to_string())
}

/// `serde_json::from_str` into a borrowed `&str`, which refuses escapes. The result is
/// named: it depends on the text alone.
#[verifier::external_body]
pub(crate) fn read_str(text: &str) -> (r: Result<String, String>)
    ensures
        seen(r) == json_str(text@),
{
    serde_json::from_str::<&str>(text).map(|s| s.to_string()).map_err(|e| e.to_string())
}

/// `serde_json::from_str` into a `String`. The result is named: it depends on the text
/// alone.
#[verifier::external_body]
pub(crate) fn read_string(text: &str) -> (r: Result<String, String>)
    ensures
        seen(r) == json_string(text@),
{
    serde_json::from_str::<String>(text).map_err(|e| e.to_string())
}

/// `serde_json::from_str` into a `u64`. The result is named: it depends on the text
/// alone.
#[verifier::external_body]
pub(crate) fn read_u64(text: &str) -> (r: Result<u64, String>)
    ensures
        seen(r) == json_u64(text@),
{
    serde_json::from_str::<u64>(text).map_err(|e| e.to_string())
}

/// `serde_json::from_str` into an `i64`. The result is named: it depends on the text
/// alone.
#[verifier::external_body]
pub(crate) fn read_i64(text: &str) -> (r: Result<i64, String>)
    ensures
        seen(r) == json_i64(text@),
{
    serde_json::from_str::<i64>(text).map_err(|e| e.to_string())
}

/// `serde_json::from_str` into a `bool`. The result is named: it depends on the text
/// alone.
#[verifier::external_body]
pub(crate) fn read_bool(text: &str) -> (r: Result<bool, String>)
    ensures
        seen(r) == json_bool(text@),
{
    serde_json::from_str::<bool>(text).map_err(|e| e.to_string())
}

/// `Display` of a `serde_json::Value::String`: the text as a JSON string, between quotes,
/// with quotes, backslashes and control characters escaped and every other character as
/// it is.
#[verifier::external_body]
pub(crate) fn quoted(text: &str) -> (r: String)
    ensures
        r@ == json_quoted(text@),
{
    serde_json::Value::String(text.to_string()).to_string()
}

/// The raw value of a field, if the record has it.
pub open spec fn field_of(f: Seq<(Seq<char>, Seq<char>)>, name: Seq<char>) -> Option<Seq<char>>
    decreases f.len(),
{
    if f.len() == 0 {
        None
    } else if f[0].0 == name {
        Some(f[0].1)
    } else {
        field_of(f.skip(1), name)
    }
}

/// The raw value of a field, unless it is absent or `null`.
pub open spec fn given_of(f: Seq<(Seq<char>, Seq<char>)>, name: Seq<char>) -> Option<Seq<char>> {
    match field_of(f, name) {
        Some(v) => if v == "null"@ {
            None
        } else {
            Some(v)
        },
        None => None,
    }
}

/// The message for a field that is not there.
pub open spec fn missing(name: Seq<char>) -> Seq<char> {
    "missing field `"@ + name + "`"@
}

/// The raw value of a field that must be there.
pub open spec fn raw_in(f: Seq<(Seq<char>, Seq<char>)>, name: Seq<char>) -> Result<
    Seq<char>,
    Seq<char>,
> {
    match field_of(f, name) {
        Some(v) => Ok(v),
        None => Err(missing(name)),
    }
}

/// A field that must be there, without escapes.
pub open spec fn str_in(f: Seq<(Seq<char>, Seq<char>)>, name: Seq<char>) -> Result<
    Seq<char>,
    Seq<char>,
> {
    match field_of(f, name) {
        Some(v) => json_str(v),
        None => Err(missing(name)),
    }
}

/// A field that may be absent or `null`, without escapes.
pub open spec fn opt_str_in(f: Seq<(Seq<char>, Seq<char>)>, name: Seq<char>) -> Result<
    Option<Seq<char>>,
    Seq<char>,
> {
    match given_of(f, name) {
        Some(v) => match json_str(v) {
            Ok(s) => Ok(Some(s)),
            Err(e) => Err(e),
        },
        None => Ok(None),
    }
}

/// A text field that must be there.
pub open spec fn string_in(f: Seq<(Seq<char>, Seq<char>)>, name: Seq<char>) -> Result<
    Seq<char>,
    Seq<char>,
> {
    match field_of(f, name) {
        Some(v) => json_string(v),
        None => Err(missing(name)),
    }
}

/// A text field, empty where it is absent.
pub open spec fn string_or_empty_in(f: Seq<(Seq<char>, Seq<char>)>, name: Seq<char>) -> Result<
    Seq<char>,
    Seq<char>,
> {
    match field_of(f, name) {
        Some(v) => json_string(v),
        None => Ok(Seq::empty()),
    }
}

/// A `u64` field that must be there.
pub open spec fn u64_in(f: Seq<(Seq<char>, Seq<char>)>, name: Seq<char>) -> Result<
    u64,
    Seq<char>,
> {
    match field_of(f, name) {
        Some(v) => json_u64(v),
        None => Err(missing(name)),
    }
}

/// A `u32` field that must be there.
pub open spec fn u32_in(f: Seq<(Seq<char>, Seq<char>)>, name: Seq<char>) -> Result<
    u32,
    Seq<char>,
> {
    match u64_in(f, name) {
        Ok(v) => if v <= u32::MAX {
            Ok(v as u32)
        } else {
            Err("invalid value: integer out of range for u32"@)
        },
        Err(e) => Err(e),
    }
}

/// A `u64` field that may be absent or `null`.
pub open spec fn opt_u64_in(f: Seq<(Seq<char>, Seq<char>)>, name: Seq<char>) -> Result<
    Option<u64>,
    Seq<char>,
> {
    match given_of(f, name) {
        Some(v) => match json_u64(v) {
            Ok(x) => Ok(Some(x)),
            Err(e) => Err(e),
        },
        None => Ok(None),
    }
}

/// An `i64` field that must be there.
pub open spec fn i64_in(f: Seq<(Seq<char>, Seq<char>)>, name: Seq<char>) -> Result<
    i64,
    Seq<char>,
> {
    match field_of(f, name) {
        Some(v) => json_i64(v),
        None => Err(missing(name)),
    }
}

/// A `bool` field that must be there.
pub open spec fn bool_in(f: Seq<(Seq<char>, Seq<char>)>, name: Seq<char>) -> Result<
    bool,
    Seq<char>,
> {
    match field_of(f, name) {
        Some(v) => json_bool(v),
        None => Err(missing(name)),
    }
}

/// A `bool` field, false where it is absent.
pub open spec fn bool_or_false_in(f: Seq<(Seq<char>, Seq<char>)>, name: Seq<char>) -> Result<
    bool,
    Seq<char>,
> {
    match field_of(f, name) {
        Some(v) => json_bool(v),
        None => Ok(false),
    }
}

/// A `bool` field that may be absent or `null`.
pub open spec fn opt_bool_in(f: Seq<(Seq<char>, Seq<char>)>, name: Seq<char>) -> Result<
    Option<bool>,
    Seq<char>,
> {
    match given_of(f, name) {
        Some(v) => match json_bool(v) {
            Ok(x) => Ok(Some(x)),
            Err(e) => Err(e),
        },
        None => Ok(None),
    }
}

/// The elements of an array field that must be there.
pub open spec fn list_in(f: Seq<(Seq<char>, Seq<char>)>, name: Seq<char>) -> Result<
    Seq<Seq<char>>,
    Seq<char>,
> {
    match field_of(f, name) {
        Some(v) => json_array(v),
        None => Err(missing(name)),
    }
}

/// The elements of an array field, none where it is absent.
pub open spec fn list_or_empty_in(f: Seq<(Seq<char>, Seq<char>)>, name: Seq<char>) -> Result<
    Seq<Seq<char>>,
    Seq<char>,
> {
    match field_of(f, name) {
        Some(v) => json_array(v),
        None => Ok(Seq::empty()),
    }
}

/// Looks a field up.
pub(crate) fn find_field(f: &Vec<(String, String)>, name: &str) -> (r: Option<String>)
    ensures
        r.deep_view() == field_of(f.deep_view(), name@),
{
    let ghost d = f.deep_view();
    let mut i: usize = 0;
    assert(d.skip(0) =~= d);
    while i < f.len()
        invariant
            i <= f.len(),
            d == f.deep_view(),
            d.len() == f.len(),
            field_of(d, name@) == field_of(d.skip(i as int), name@),
        decreases f.len() - i,
    {
        assert(d.skip(i as int)[0] == d[i as int]);
        assert(d[i as int] == (f[i as int].0@, f[i as int].1@));
        if same_text(f[i].0.as_str(), name) {
            return Some(String::from_str(f[i].1.as_str()));
        }
        assert(d.skip(i as int).skip(1) =~= d.skip(i + 1));
        i += 1;
    }
    None
}

/// Looks up a field that may be absent or `null`.
pub(crate) fn find_given(f: &Vec<(String, String)>, name: &str) -> (r: Option<String>)
    ensures
        r.deep_view() == given_of(f.deep_view(), name@),
{
    match find_field(f, name) {
        Some(v) => if same_text(v.as_str(), "null") {
            None
        } else {
            Some(v)
        },
        None => None,
    }
}

fn missing_text(name: &str) -> (r: String)
    ensures
        r@ == missing(name@),
{
    let mut e = String::from_str("missing field `");
    e.append(name);
    e.append("`");
    e
}

/// Reads a field of raw text that must be there.
pub(crate) fn get_raw(f: &Vec<(String, String)>, name: &str) -> (r: Result<String, String>)
    ensures
        seen(r) == raw_in(f.deep_view(), name@),
{
    match find_field(f, name) {
        Some(v) => Ok(v),
        None => Err(missing_text(name)),
    }
}

/// Reads a field without escapes that must be there.
pub(crate) fn get_str(f: &Vec<(String, String)>, name: &str) -> (r: Result<String, String>)
    ensures
        seen(r) == str_in(f.deep_view(), name@),
{
    match find_field(f, name) {
        Some(v) => read_str(v.as_str()),
        None => Err(missing_text(name)),
    }
}

/// Reads a field without escapes that may be absent or `null`.
pub(crate) fn get_opt_str(f: &Vec<(String, String)>, name: &str) -> (r: Result<
    Option<String>,
    String,
>)
    ensures
        seen(r) == opt_str_in(f.deep_view(), name@),
{
    match find_given(f, name) {
        Some(v) => match read_str(v.as_str()) {
            Ok(s) => Ok(Some(s)),
            Err(e) => Err(e),
        },
        None => Ok(None),
    }
}

/// Reads a text field that must be there.
pub(crate) fn get_string(f: &Vec<(String, String)>, name: &str) -> (r: Result<String, String>)
    ensures
        seen(r) == string_in(f.deep_view(), name@),
{
    match find_field(f, name) {
        Some(v) => read_string(v.as_str()),
        None => Err(missing_text(name)),
    }
}

/// Reads a text field, empty where it is absent.
pub(crate) fn get_string_or_empty(f: &Vec<(String, String)>, name: &str) -> (r: Result<
    String,
    String,
>)
    ensures
        seen(r) == string_or_empty_in(f.deep_view(), name@),
{
    match find_field(f, name) {
        Some(v) => read_string(v.as_str()),
        None => {
            let s = String::new();
            assert(s@ =~= Seq::<char>::empty());
            Ok(s)
        },
    }
}

/// Reads a `u64` field that must be there.
pub(crate) fn get_u64(f: &Vec<(String, String)>, name: &str) -> (r: Result<u64, String>)
    ensures
        seen(r) == u64_in(f.deep_view(), name@),
{
    match find_field(f, name) {
        Some(v) => read_u64(v.as_str()),
        None => Err(missing_text(name)),
    }
}

/// Reads a `u32` field that must be there.
pub(crate) fn get_u32(f: &Vec<(String, String)>, name: &str) -> (r: Result<u32, String>)
    ensures
        seen(r) == u32_in(f.deep_view(), name@),
{
    match get_u64(f, name) {
        Ok(v) => if v <= 0xffff_ffff {
            Ok(v as u32)
        } else {
            Err(String::from_str("invalid value: integer out of range for u32"))
        },
        Err(e) => Err(e),
    }
}

/// Reads a `u64` field that may be absent or `null`.
pub(crate) fn get_opt_u64(f: &Vec<(String, String)>, name: &str) -> (r: Result<
    Option<u64>,
    String,
>)
    ensures
        seen(r) == opt_u64_in(f.deep_view(), name@),
{
    match find_given(f, name) {
        Some(v) => match read_u64(v.as_str()) {
            Ok(s) => Ok(Some(s)),
            Err(e) => Err(e),
        },
        None => Ok(None),
    }
}

/// Reads an `i64` field that must be there.
pub(crate) fn get_i64(f: &Vec<(String, String)>, name: &str) -> (r: Result<i64, String>)
    ensures
        seen(r) == i64_in(f.deep_view(), name@),
{
    match find_field(f, name) {
        Some(v) => read_i64(v.as_str()),
        None => Err(missing_text(name)),
    }
}

/// Reads a `bool` field that must be there.
pub(crate) fn get_bool(f: &Vec<(String, String)>, name: &str) -> (r: Result<bool, String>)
    ensures
        seen(r) == bool_in(f.deep_view(), name@),
{
    match find_field(f, name) {
        Some(v) => read_bool(v.as_str()),
        None => Err(missing_text(name)),
    }
}

/// Reads a `bool` field, false where it is absent.
pub(crate) fn get_bool_or_false(f: &Vec<(String, String)>, name: &str) -> (r: Result<bool, String>)
    ensures
        seen(r) == bool_or_false_in(f.deep_view(), name@),
{
    match find_field(f, name) {
        Some(v) => read_bool(v.as_str()),
        None => Ok(false),
    }
}

/// Reads a `bool` field that may be absent or `null`.
pub(crate) fn get_opt_bool(f: &Vec<(String, String)>, name: &str) -> (r: Result<
    Option<bool>,
    String,
>)
    ensures
        seen(r) == opt_bool_in(f.deep_view(), name@),
{
    match find_given(f, name) {
        Some(v) => match read_bool(v.as_str()) {
            Ok(s) => Ok(Some(s)),
            Err(e) => Err(e),
        },
        None => Ok(None),
    }
}

/// Reads the elements of an array field that must be there.
pub(crate) fn get_list(f: &Vec<(String, String)>, name: &str) -> (r: Result<Vec<String>, String>)
    ensures
        seen(r) == list_in(f.deep_view(), name@),
{
    match find_field(f, name) {
        Some(v) => read_array(v.as_str()),
        None => Err(missing_text(name)),
    }
}

/// Reads the elements of an array field, none where it is absent.
pub(crate) fn get_list_or_empty(f: &Vec<(String, String)>, name: &str) -> (r: Result<
    Vec<String>,
    String,
>)
    ensures
        seen(r) == list_or_empty_in(f.deep_view(), name@),
{
    match find_field(f, name) {
        Some(v) => read_array(v.as_str()),
        None => {
            let v: Vec<String> = Vec::new();
            assert(v.deep_view() =~= Seq::<Seq<char>>::empty());
            Ok(v)
        },
    }
}

/// A pair of texts: an array of exactly two.
pub open spec fn pair_of(text: Seq<char>) -> Result<(Seq<char>, Seq<char>), Seq<char>> {
    match json_array(text) {
        Err(e) => Err(e),
        Ok(v) => if v.len() != 2 {
            Err("invalid length"@)
        } else {
            let a = json_str(v[0]);
            let b = json_str(v[1]);
            if a is Err {
                Err(a->Err_0)
            } else if b is Err {
                Err(b->Err_0)
            } else {
                Ok((a->Ok_0, b->Ok_0))
            }
        },
    }
}

/// Reads a pair of texts.
pub(crate) fn read_pair(text: &str) -> (r: Result<(String, String), String>)
    ensures
        seen(r) == pair_of(text@),
{
    let v = match read_array(text) {
        Ok(v) => v,
        Err(e) => return Err(e),
    };
    if v.len() != 2 {
        return Err(String::from_str("invalid length"));
    }
    let a = match read_str(v[0].as_str()) {
        Ok(s) => s,
        Err(e) => return Err(e),
    };
    let b = match read_str(v[1].as_str()) {
        Ok(s) => s,
        Err(e) => return Err(e),
    };
    Ok((a, b))
}

/// All of them, or the message of the first that fails.
pub open spec fn pairs_of(items: Seq<Seq<char>>) -> Result<Seq<(Seq<char>, Seq<char>)>, Seq<char>>
    decreases items.len(),
{
    if items.len() == 0 {
        Ok(Seq::empty())
    } else {
        match pairs_of(items.drop_last()) {
            Err(e) => Err(e),
            Ok(s) => match pair_of(items.last()) {
                Err(e) => Err(e),
                Ok(x) => Ok(s.push(x)),
            },
        }
    }
}

proof fn lemma_pairs_of_stops(items: Seq<Seq<char>>, i: int)
    requires
        0 <= i <= items.len(),
        pairs_of(items.take(i)) is Err,
    ensures
        pairs_of(items) == pairs_of(items.take(i)),
    decreases items.len() - i,
{
    if i < items.len() {
        assert(items.take(i + 1).drop_last() =~= items.take(i));
        lemma_pairs_of_stops(items, i + 1);
    } else {
        assert(items.take(i) =~= items);
    }
}

/// Reads them all; the first that fails decides.
pub(crate) fn read_pairs(items: &Vec<String>) -> (r: Result<Vec<(String, String)>, String>)
    ensures
        seen(r) == pairs_of(items.deep_view()),
{
    let ghost d = items.deep_view();
    let mut out: Vec<(String, String)> = Vec::new();
    let mut i: usize = 0;
    assert(d.take(0) =~= Seq::<Seq<char>>::empty());
    assert(out.deep_view() =~= Seq::<(Seq<char>, Seq<char>)>::empty());
    while i < items.len()
        invariant
            i <= items.len(),
            d == items.deep_view(),
            d.len() == items.len(),
            pairs_of(d.take(i as int)) == Ok::<Seq<(Seq<char>, Seq<char>)>, Seq<char>>(out.deep_view()),
        decreases items.len() - i,
    {
        proof {
            assert(d.take(i + 1).drop_last() =~= d.take(i as int));
            assert(d.take(i + 1).last() == items[i as int]@);
        }
        match read_pair(items[i].as_str()) {
            Ok(x) => {
                let ghost before = out.deep_view();
                out.push(x);
                assert(out.deep_view() =~= before.push(x.deep_view()));
            },
            Err(e) => {
                proof {
                    lemma_pairs_of_stops(d, i + 1);
                }
                return Err(e);
            },
        }
        i += 1;
    }
    assert(d.take(i as int) =~= d);
    Ok(out)
}

/// The first two of an array of exactly four texts.
pub open spec fn quad_of(text: Seq<char>) -> Result<(Seq<char>, Seq<char>), Seq<char>> {
    match json_array(text) {
        Err(e) => Err(e),
        Ok(v) => if v.len() != 4 {
            Err("invalid length"@)
        } else {
            let a = json_str(v[0]);
            let b = json_str(v[1]);
            let c = json_str(v[2]);
            let d = json_str(v[3]);
            if a is Err {
                Err(a->Err_0)
            } else if b is Err {
                Err(b->Err_0)
            } else if c is Err {
                Err(c->Err_0)
            } else if d is Err {
                Err(d->Err_0)
            } else {
                Ok((a->Ok_0, b->Ok_0))
            }
        },
    }
}

/// Reads the first two of four texts.
pub(crate) fn read_quad(text: &str) -> (r: Result<(String, String), String>)
    ensures
        seen(r) == quad_of(text@),
{
    let v = match read_array(text) {
        Ok(v) => v,
        Err(e) => return Err(e),
    };
    if v.len() != 4 {
        return Err(String::from_str("invalid length"));
    }
    let a = match read_str(v[0].as_str()) {
        Ok(s) => s,
        Err(e) => return Err(e),
    };
    let b = match read_str(v[1].as_str()) {
        Ok(s) => s,
        Err(e) => return Err(e),
    };
    let _c = match read_str(v[2].as_str()) {
        Ok(s) => s,
        Err(e) => return Err(e),
    };
    let _d = match read_str(v[3].as_str()) {
        Ok(s) => s,
        Err(e) => return Err(e),
    };
    Ok((a, b))
}

/// All of them, or the message of the first that fails.
pub open spec fn quads_of(items: Seq<Seq<char>>) -> Result<Seq<(Seq<char>, Seq<char>)>, Seq<char>>
    decreases items.len(),
{
    if items.len() == 0 {
        Ok(Seq::empty())
    } else {
        match quads_of(items.drop_last()) {
            Err(e) => Err(e),
            Ok(s) => match quad_of(items.last()) {
                Err(e) => Err(e),
                Ok(x) => Ok(s.push(x)),
            },
        }
    }
}

proof fn lemma_quads_of_stops(items: Seq<Seq<char>>, i: int)
    requires
        0 <= i <= items.len(),
        quads_of(items.take(i)) is Err,
    ensures
        quads_of(items) == quads_of(items.take(i)),
    decreases items.len() - i,
{
    if i < items.len() {
        assert(items.take(i + 1).drop_last() =~= items.take(i));
        lemma_quads_of_stops(items, i + 1);
    } else {
        assert(items.take(i) =~= items);
    }
}

/// Reads them all; the first that fails decides.
pub(crate) fn read_quads(items: &Vec<String>) -> (r: Result<Vec<(String, String)>, String>)
    ensures
        seen(r) == quads_of(items.deep_view()),
{
    let ghost d = items.deep_view();
    let mut out: Vec<(String, String)> = Vec::new();
    let mut i: usize = 0;
    assert(d.take(0) =~= Seq::<Seq<char>>::empty());
    assert(out.deep_view() =~= Seq::<(Seq<char>, Seq<char>)>::empty());
    while i < items.len()
        invariant
            i <= items.len(),
            d == items.deep_view(),
            d.len() == items.len(),
            quads_of(d.take(i as int)) == Ok::<Seq<(Seq<char>, Seq<char>)>, Seq<char>>(out.deep_view()),
        decreases items.len() - i,
    {
        proof {
            assert(d.take(i + 1).drop_last() =~= d.take(i as int));
            assert(d.take(i + 1).last() == items[i as int]@);
        }
        match read_quad(items[i].as_str()) {
            Ok(x) => {
                let ghost before = out.deep_view();
                out.push(x);
                assert(out.deep_view() =~= before.push(x.deep_view()));
            },
            Err(e) => {
                proof {
                    lemma_quads_of_stops(d, i + 1);
                }
                return Err(e);
            },
        }
        i += 1;
    }
    assert(d.take(i as int) =~= d);
    Ok(out)
}

/// All the texts, or the message of the first that fails.
pub open spec fn strings_of(items: Seq<Seq<char>>) -> Result<Seq<Seq<char>>, Seq<char>>
    decreases items.len(),
{
    if items.len() == 0 {
        Ok(Seq::empty())
    } else {
        match strings_of(items.drop_last()) {
            Err(e) => Err(e),
            Ok(s) => match json_string(items.last()) {
                Err(e) => Err(e),
                Ok(x) => Ok(s.push(x)),
            },
        }
    }
}

proof fn lemma_strings_of_stops(items: Seq<Seq<char>>, i: int)
    requires
        0 <= i <= items.len(),
        strings_of(items.take(i)) is Err,
    ensures
        strings_of(items) == strings_of(items.take(i)),
    decreases items.len() - i,
{
    if i < items.len() {
        assert(items.take(i + 1).drop_last() =~= items.take(i));
        lemma_strings_of_stops(items, i + 1);
    } else {
        assert(items.take(i) =~= items);
    }
}

/// Reads them all; the first that fails decides.
pub(crate) fn read_strings(items: &Vec<String>) -> (r: Result<Vec<String>, String>)
    ensures
        seen(r) == strings_of(items.deep_view()),
{
    let ghost d = items.deep_view();
    let mut out: Vec<String> = Vec::new();
    let mut i: usize = 0;
    assert(d.take(0) =~= Seq::<Seq<char>>::empty());
    assert(out.deep_view() =~= Seq::<Seq<char>>::empty());
    while i < items.len()
        invariant
            i <= items.len(),
            d == items.deep_view(),
            d.len() == items.len(),
            strings_of(d.take(i as int)) == Ok::<Seq<Seq<char>>, Seq<char>>(out.deep_view()),
        decreases items.len() - i,
    {
        proof {
            assert(d.take(i + 1).drop_last() =~= d.take(i as int));
            assert(d.take(i + 1).last() == items[i as int]@);
        }
        match read_string(items[i].as_str()) {
            Ok(x) => {
                let ghost before = out.deep_view();
                out.push(x);
                assert(out.deep_view() =~= before.push(x.deep_view()));
            },
            Err(e) => {
                proof {
                    lemma_strings_of_stops(d, i + 1);
                }
                return Err(e);
            },
        }
        i += 1;
    }
    assert(d.take(i as int) =~= d);
    Ok(out)
}

} // verus!

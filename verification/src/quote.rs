//! Prices and quantities as the venues write them.

use crate::event::Level;
use crate::fixed::{fixed8, ParseFixedError, Px, Qty};
use vstd::prelude::*;
use vstd::string::StringExecFns;

verus! {

/// The message for a refused decimal: what it is, its text and the cause.
pub open spec fn refusal(what: Seq<char>, t: Seq<char>, e: ParseFixedError) -> Seq<char> {
    what + t + ": "@ + e.text()
}

/// The message for a refused decimal.
pub fn refused(what: &str, t: &str, e: ParseFixedError) -> (r: String)
    ensures
        r@ == refusal(what@, t@, e),
{
    let mut s = String::from_str(what);
    s.append(t);
    s.append(": ");
    s.append(e.message());
    s
}

/// The level that a price and a quantity write, or why it is refused.
pub open spec fn level_of(l: (Seq<char>, Seq<char>)) -> Result<Level, Seq<char>> {
    match fixed8(l.0) {
        Err(e) => Err(refusal("px "@, l.0, e)),
        Ok(p) => match fixed8(l.1) {
            Err(e) => Err(refusal("qty "@, l.1, e)),
            Ok(q) => Ok(Level { px: Px(p), qty: Qty(q) }),
        },
    }
}

/// The levels, or why the first that fails is refused.
pub open spec fn levels_of(v: Seq<(Seq<char>, Seq<char>)>) -> Result<Seq<Level>, Seq<char>>
    decreases v.len(),
{
    if v.len() == 0 {
        Ok(Seq::empty())
    } else {
        match levels_of(v.drop_last()) {
            Err(e) => Err(e),
            Ok(s) => match level_of(v.last()) {
                Err(e) => Err(e),
                Ok(l) => Ok(s.push(l)),
            },
        }
    }
}

/// An answer with its levels or its message.
pub open spec fn levels_seen(r: Result<Vec<Level>, String>) -> Result<Seq<Level>, Seq<char>> {
    match r {
        Ok(v) => Ok(v@),
        Err(e) => Err(e@),
    }
}

/// The level that a price and a quantity write.
pub fn read_level(px: &str, qty: &str) -> (r: Result<Level, String>)
    ensures
        level_of((px@, qty@)) == (match r {
            Ok(l) => Ok(l),
            Err(e) => Err(e@),
        }),
{
    let p = match Px::parse(px) {
        Ok(p) => p,
        Err(e) => return Err(refused("px ", px, e)),
    };
    let q = match Qty::parse(qty) {
        Ok(q) => q,
        Err(e) => return Err(refused("qty ", qty, e)),
    };
    Ok(Level { px: p, qty: q })
}

proof fn lemma_levels_stop(v: Seq<(Seq<char>, Seq<char>)>, i: int)
    requires
        0 <= i <= v.len(),
        levels_of(v.take(i)) is Err,
    ensures
        levels_of(v) == levels_of(v.take(i)),
    decreases v.len() - i,
{
    if i < v.len() {
        assert(v.take(i + 1).drop_last() =~= v.take(i));
        lemma_levels_stop(v, i + 1);
    } else {
        assert(v.take(i) =~= v);
    }
}

/// The levels that some pairs write.
pub fn read_levels(v: &Vec<(String, String)>) -> (r: Result<Vec<Level>, String>)
    ensures
        levels_seen(r) == levels_of(v.deep_view()),
{
    let ghost d = v.deep_view();
    let mut out: Vec<Level> = Vec::new();
    let mut i: usize = 0;
    assert(d.take(0) =~= Seq::<(Seq<char>, Seq<char>)>::empty());
    assert(out@ =~= Seq::<Level>::empty());
    while i < v.len()
        invariant
            i <= v.len(),
            d == v.deep_view(),
            d.len() == v.len(),
            levels_of(d.take(i as int)) == Ok::<Seq<Level>, Seq<char>>(out@),
        decreases v.len() - i,
    {
        proof {
            assert(d.take(i + 1).drop_last() =~= d.take(i as int));
            assert(d.take(i + 1).last() == (v[i as int].0@, v[i as int].1@));
        }
        match read_level(v[i].0.as_str(), v[i].1.as_str()) {
            Ok(l) => out.push(l),
            Err(e) => {
                proof {
                    lemma_levels_stop(d, i + 1);
                }
                return Err(e);
            },
        }
        i += 1;
    }
    assert(d.take(i as int) =~= d);
    Ok(out)
}

} // verus!

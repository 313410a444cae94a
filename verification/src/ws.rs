//! The live stream: `GET /ws?markets=spot,perp&interval_ms=250`.
//!
//! It says `hello` once, then `book` at each interval, `footprint` where it changed, and
//! `cvd`. What the client says is ignored.

use crate::json::{json_quoted, quoted};
use crate::text::{dec, parse_u64, push_dec, same_text, unsigned};
use crate::words::{cut, pieces, split_on, split_once};
use vstd::prelude::*;
use vstd::string::StringExecFns;

verus! {

/// Interval between books where the client asks for none, ms.
pub const INTERVAL_MS: u64 = 250;

/// Shortest interval, ms.
pub const INTERVAL_MIN_MS: u64 = 100;

/// Longest interval, ms.
pub const INTERVAL_MAX_MS: u64 = 5_000;

/// The answer to the key of a WebSocket.
pub uninterp spec fn accept_key(key: Seq<char>) -> Seq<char>;

/// `tungstenite::handshake::derive_accept_key`, over the bytes of the key. The result is
/// named: it depends on the key alone.
#[verifier::external_body]
fn derive_accept_key(key: &str) -> (r: String)
    ensures
        r@ == accept_key(key@),
{
    tokio_tungstenite::tungstenite::handshake::derive_accept_key(key.as_bytes())
}

/// The head that opens a session, given the answer to its key.
pub open spec fn upgrade_text(accept: Seq<char>) -> Seq<char> {
    "HTTP/1.1 101 Switching Protocols\r\nUpgrade: websocket\r\nConnection: Upgrade\r\nSec-WebSocket-Accept: "@
        + accept + "\r\n\r\n"@
}

/// The head that opens a session, given the answer to its key.
pub fn upgrade_with(accept: &str) -> (r: String)
    ensures
        r@ == upgrade_text(accept@),
{
    let mut s = String::from_str(
        "HTTP/1.1 101 Switching Protocols\r\nUpgrade: websocket\r\nConnection: Upgrade\r\nSec-WebSocket-Accept: ",
    );
    s.append(accept);
    s.append("\r\n\r\n");
    s
}

/// The head that opens a session.
pub fn upgrade_head(key: &str) -> (r: String)
    ensures
        r@ == upgrade_text(accept_key(key@)),
{
    let accept = derive_accept_key(key);
    upgrade_with(accept.as_str())
}

/// The value of a parameter in a pair `name=value`.
pub open spec fn value_in(pair: Seq<char>, name: Seq<char>) -> Option<Seq<char>> {
    match cut(pair, '=') {
        Some((k, v)) => if k == name {
            Some(v)
        } else {
            None
        },
        None => None,
    }
}

/// The first value of a parameter among some pairs, from the `i`-th on.
pub open spec fn first_value(p: Seq<Seq<char>>, name: Seq<char>, i: int) -> Option<Seq<char>>
    decreases p.len() - i,
{
    if i < 0 || i >= p.len() {
        None
    } else if value_in(p[i], name) is Some {
        value_in(p[i], name)
    } else {
        first_value(p, name, i + 1)
    }
}

/// The value of a parameter of a query.
pub open spec fn param_of(query: Seq<char>, name: Seq<char>) -> Option<Seq<char>> {
    first_value(pieces(query, '&'), name, 0)
}

/// The value of a parameter of a query.
pub fn param(query: &str, name: &str) -> (r: Option<String>)
    ensures
        match r {
            Some(v) => param_of(query@, name@) == Some(v@),
            None => param_of(query@, name@) is None,
        },
{
    let p = split_on(query, '&');
    let ghost ps = pieces(query@, '&');
    assert(ps.len() == p@.len());
    let mut i: usize = 0;
    while i < p.len()
        invariant
            i <= p@.len(),
            ps == p.deep_view(),
            ps.len() == p@.len(),
            first_value(ps, name@, 0) == first_value(ps, name@, i as int),
            ps == pieces(query@, '&'),
        decreases p@.len() - i,
    {
        assert(ps[i as int] == p@[i as int]@);
        if let Some((k, v)) = split_once(p[i].as_str(), '=') {
            if same_text(k.as_str(), name) {
                return Some(v);
            }
        }
        i += 1;
    }
    None
}

/// The interval that a query asks for.
pub open spec fn interval_of(query: Seq<char>) -> u64 {
    let asked = match param_of(query, "interval_ms"@) {
        Some(t) => match unsigned(t) {
            Some(n) => n,
            None => INTERVAL_MS,
        },
        None => INTERVAL_MS,
    };
    if asked < INTERVAL_MIN_MS {
        INTERVAL_MIN_MS
    } else if asked > INTERVAL_MAX_MS {
        INTERVAL_MAX_MS
    } else {
        asked
    }
}

/// The interval that a query asks for, within its limits.
pub fn interval_ms(query: &str) -> (r: u64)
    ensures
        r == interval_of(query@),
        INTERVAL_MIN_MS <= r <= INTERVAL_MAX_MS,
{
    let asked: u64 = match param(query, "interval_ms") {
        Some(t) => match parse_u64(t.as_str()) {
            Some(n) => n,
            None => INTERVAL_MS,
        },
        None => INTERVAL_MS,
    };
    if asked < INTERVAL_MIN_MS {
        INTERVAL_MIN_MS
    } else if asked > INTERVAL_MAX_MS {
        INTERVAL_MAX_MS
    } else {
        asked
    }
}

/// A query asks for a market: by its key, or by asking for none in particular.
pub open spec fn asked_for(query: Seq<char>, key: Seq<char>) -> bool {
    match param_of(query, "markets"@) {
        Some(t) => pieces(t, ',').contains(key),
        None => true,
    }
}

/// Whether a query asks for a market.
pub fn wanted(query: &str, key: &str) -> (r: bool)
    ensures
        r == asked_for(query@, key@),
{
    match param(query, "markets") {
        Some(t) => {
            let p = split_on(t.as_str(), ',');
            let ghost ps = pieces(t@, ',');
            assert(ps.len() == p@.len());
            let mut i: usize = 0;
            while i < p.len()
                invariant
                    i <= p@.len(),
                    ps == p.deep_view(),
                    ps.len() == p@.len(),
                    ps == pieces(t@, ','),
                    param_of(query@, "markets"@) == Some(t@),
                    forall|j: int| 0 <= j < i ==> #[trigger] ps[j] != key@,
                decreases p@.len() - i,
            {
                assert(ps[i as int] == p@[i as int]@);
                if same_text(p[i].as_str(), key) {
                    assert(ps.contains(key@));
                    return true;
                }
                i += 1;
            }
            false
        },
        None => true,
    }
}

/// Some texts as JSON strings, joined by commas.
pub open spec fn quoted_list(v: Seq<Seq<char>>) -> Seq<char>
    decreases v.len(),
{
    if v.len() == 0 {
        Seq::empty()
    } else if v.len() == 1 {
        json_quoted(v[0])
    } else {
        quoted_list(v.drop_last()) + ","@ + json_quoted(v.last())
    }
}

/// The first message of a session.
pub open spec fn hello_text(keys: Seq<Seq<char>>, interval_ms: u64) -> Seq<char> {
    "{\"interval_ms\":"@ + dec(interval_ms as nat) + ",\"markets\":["@ + quoted_list(keys)
        + "],\"type\":\"hello\"}"@
}

/// The first message of a session.
pub fn hello(keys: &[&str], interval_ms: u64) -> (r: String)
    ensures
        r@ == hello_text(keys.deep_view(), interval_ms),
{
    let mut s = String::from_str("{\"interval_ms\":");
    push_dec(&mut s, interval_ms as u128);
    s.append(",\"markets\":[");
    let ghost s0 = s@;
    let ghost ks = keys.deep_view();
    let mut i: usize = 0;
    assert(s0 + quoted_list(ks.take(0)) =~= s0);
    while i < keys.len()
        invariant
            i <= keys@.len(),
            ks == keys.deep_view(),
            ks.len() == keys@.len(),
            s@ == s0 + quoted_list(ks.take(i as int)),
        decreases keys@.len() - i,
    {
        let ghost was = s@;
        assert(ks[i as int] == keys@[i as int]@);
        assert(ks.take(i + 1).drop_last() =~= ks.take(i as int));
        if i > 0 {
            s.append(",");
        }
        let q = quoted(keys[i]);
        s.append(q.as_str());
        i += 1;
        assert(s@ =~= s0 + quoted_list(ks.take(i as int)));
    }
    assert(ks.take(i as int) =~= ks);
    s.append("],\"type\":\"hello\"}");
    assert(s@ =~= hello_text(ks, interval_ms));
    s
}

/// A message about a market.
pub open spec fn frame_text(kind: Seq<char>, key: Seq<char>, data: Seq<char>) -> Seq<char> {
    "{\"type\":\""@ + kind + "\",\"key\":\""@ + key + "\",\"data\":"@ + data + "}"@
}

/// A message about a market (`book` or `footprint`).
pub fn frame(kind: &str, key: &str, data: &str) -> (r: String)
    ensures
        r@ == frame_text(kind@, key@, data@),
{
    let mut s = String::from_str("{\"type\":\"");
    s.append(kind);
    s.append("\",\"key\":\"");
    s.append(key);
    s.append("\",\"data\":");
    s.append(data);
    s.append("}");
    s
}

/// A message with the delta of the book.
pub open spec fn cvd_text(data: Seq<char>) -> Seq<char> {
    "{\"type\":\"cvd\",\"data\":"@ + data + "}"@
}

/// A message with the delta of the book.
pub fn cvd_frame(data: &str) -> (r: String)
    ensures
        r@ == cvd_text(data@),
{
    let mut s = String::from_str("{\"type\":\"cvd\",\"data\":");
    s.append(data);
    s.append("}");
    s
}

/// A message of a live session.
#[derive(Debug, Clone, Copy, PartialEq, Eq, Structural)]
pub enum Notice {
    /// The book of a market.
    Book(usize),
    /// The candles of a market.
    Footprint(usize),
    /// The delta of the book.
    Cvd,
}

/// The messages about the first `n` markets, in order: each has its book, and its candles
/// where they changed since they were sent.
pub open spec fn notices_of(changed: Seq<bool>, n: int) -> Seq<Notice>
    decreases n,
{
    if n <= 0 {
        Seq::empty()
    } else {
        let book = notices_of(changed, n - 1).push(Notice::Book((n - 1) as usize));
        if changed[n - 1] {
            book.push(Notice::Footprint((n - 1) as usize))
        } else {
            book
        }
    }
}

/// The messages that go out each interval: the book of each market, its candles where they
/// changed since they were sent, and the delta of the book where there is one.
pub fn notices(changed: &[bool], delta: bool) -> (r: Vec<Notice>)
    ensures
        r@ == (if delta {
            notices_of(changed@, changed@.len() as int).push(Notice::Cvd)
        } else {
            notices_of(changed@, changed@.len() as int)
        }),
{
    let mut r: Vec<Notice> = Vec::new();
    let mut i: usize = 0;
    while i < changed.len()
        invariant
            i <= changed@.len(),
            r@ == notices_of(changed@, i as int),
        decreases changed@.len() - i,
    {
        r.push(Notice::Book(i));
        if changed[i] {
            r.push(Notice::Footprint(i));
        }
        i += 1;
    }
    if delta {
        r.push(Notice::Cvd);
    }
    r
}

proof fn lemma_notices(changed: Seq<bool>, n: int, i: int)
    requires
        0 <= i < changed.len() <= usize::MAX,
        0 <= n <= changed.len(),
    ensures
        notices_of(changed, n).contains(Notice::Book(i as usize)) == (i < n),
        notices_of(changed, n).contains(Notice::Footprint(i as usize)) == (i < n && changed[i]),
    decreases n,
{
    if n > 0 {
        lemma_notices(changed, n - 1, i);
        let t = notices_of(changed, n - 1);
        let u = notices_of(changed, n);
        let k = t.len() as int;
        assert(u[k] == Notice::Book((n - 1) as usize));
        if changed[n - 1] {
            assert(u[k + 1] == Notice::Footprint((n - 1) as usize));
        }
        assert forall|x: Notice| #[trigger] t.contains(x) implies u.contains(x) by {
            let m = choose|m: int| 0 <= m < t.len() && t[m] == x;
            assert(u[m] == x);
        }
        assert forall|x: Notice| #[trigger] u.contains(x) implies t.contains(x) || x
            == Notice::Book((n - 1) as usize) || (changed[n - 1] && x == Notice::Footprint(
            (n - 1) as usize,
        )) by {
            let m = choose|m: int| 0 <= m < u.len() && u[m] == x;
            if m < k {
                assert(t[m] == x);
            }
        }
    }
}

/// The book of every market goes out each interval, and its candles if and only if they
/// changed.
pub proof fn law_candles_go_out_when_they_change(changed: Seq<bool>, i: int)
    requires
        0 <= i < changed.len() <= usize::MAX,
    ensures
        notices_of(changed, changed.len() as int).contains(Notice::Book(i as usize)),
        notices_of(changed, changed.len() as int).contains(Notice::Footprint(i as usize))
            == changed[i],
{
    lemma_notices(changed, changed.len() as int, i);
}

} // verus!

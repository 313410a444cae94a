//! The API of the node: reading requests, routing them, and the text of the answers.
//!
//! * `/health` — the state of each market.
//! * `/ready` — 200 only where every book is live; otherwise 503.
//! * `/metrics` — Prometheus.
//! * `/book/<m>` — the view of a market.
//! * `/footprint/<m>` — its candles and retired walls.
//! * `/cvd` — the delta of the book.
//! * `/ws?markets=spot,perp&interval_ms=250` — the live stream.
//! * `/` and `/ui` — the page.

use crate::json::{json_quoted, quoted};
use crate::sync::Phase;
use crate::text::{
    chars_of, dec, int_text, push_dec, push_int, same_text, starts, starts_with, text_between,
};
use crate::words::{
    alike, cut, lines, same_but_case, split_lines, split_once, split_words, trim, trimmed, words,
};
use vstd::prelude::*;
use vstd::string::StringExecFns;

verus! {

/// Most bytes of a request that are read.
pub const MAX_REQUEST: usize = 4_096;

/// Most live sessions at once.
pub const MAX_WS: usize = 16;

/// The text of some bytes, with what is not UTF-8 replaced.
pub uninterp spec fn lossy_text(b: Seq<u8>) -> Seq<char>;

/// `String::from_utf8_lossy`. The result is named: it depends on the bytes alone.
#[verifier::external_body]
fn lossy(b: &[u8]) -> (r: String)
    ensures
        r@ == lossy_text(b@),
{
    String::from_utf8_lossy(b).into_owned()
}

/// The head of a request ends at the `i`-th byte.
pub open spec fn head_ends(b: Seq<u8>, i: int) -> bool {
    0 <= i && i + 4 <= b.len() && b[i] == 13 && b[i + 1] == 10 && b[i + 2] == 13 && b[i + 3] == 10
}

/// The head of a request is complete.
pub open spec fn head_complete(b: Seq<u8>) -> bool {
    exists|i: int| #[trigger] head_ends(b, i)
}

/// Whether more of a request is to be read: its head is not complete, and there is room.
pub fn wants_more(b: &[u8]) -> (r: bool)
    ensures
        r == (b@.len() < MAX_REQUEST && !head_complete(b@)),
{
    if b.len() >= MAX_REQUEST {
        return false;
    }
    let mut i: usize = 0;
    while i + 4 <= b.len()
        invariant
            b@.len() < MAX_REQUEST,
            i <= b@.len(),
            forall|j: int| 0 <= j < i ==> !#[trigger] head_ends(b@, j),
        decreases b@.len() - i,
    {
        if b[i] == 13 && b[i + 1] == 10 && b[i + 2] == 13 && b[i + 3] == 10 {
            assert(head_ends(b@, i as int));
            return false;
        }
        i += 1;
    }
    true
}

/// A request.
pub struct Request {
    /// Method.
    pub method: String,
    /// Path.
    pub path: String,
    /// What stands behind the question mark.
    pub query: String,
    /// Key of the WebSocket, where the request asks for one.
    pub ws_key: Option<String>,
}

/// What a [`Request`] holds.
#[verifier::ext_equal]
pub struct RequestShow {
    /// Method.
    pub method: Seq<char>,
    /// Path.
    pub path: Seq<char>,
    /// Query.
    pub query: Seq<char>,
    /// Key of the WebSocket.
    pub ws_key: Option<Seq<char>>,
}

impl View for Request {
    type V = RequestShow;

    open spec fn view(&self) -> RequestShow {
        RequestShow {
            method: self.method@,
            path: self.path@,
            query: self.query@,
            ws_key: match self.ws_key {
                Some(k) => Some(k@),
                None => None,
            },
        }
    }
}

/// A header asks for a WebSocket.
pub open spec fn asks_upgrade(l: Seq<char>) -> bool {
    match cut(l, ':') {
        Some((k, v)) => alike(trimmed(k), "upgrade"@) && alike(trimmed(v), "websocket"@),
        None => false,
    }
}

/// The key of a WebSocket that a header brings.
pub open spec fn key_in(l: Seq<char>) -> Option<Seq<char>> {
    match cut(l, ':') {
        Some((k, v)) => if alike(trimmed(k), "sec-websocket-key"@) {
            Some(trimmed(v))
        } else {
            None
        },
        None => None,
    }
}

/// Some header asks for a WebSocket.
pub open spec fn upgrades(h: Seq<Seq<char>>) -> bool
    decreases h.len(),
{
    h.len() > 0 && (upgrades(h.drop_last()) || asks_upgrade(h.last()))
}

/// The last key of a WebSocket among some headers.
pub open spec fn last_key(h: Seq<Seq<char>>) -> Option<Seq<char>>
    decreases h.len(),
{
    if h.len() == 0 {
        None
    } else if key_in(h.last()) is Some {
        key_in(h.last())
    } else {
        last_key(h.drop_last())
    }
}

/// The request that a text writes: the first line has the method and the target, and the
/// rest are headers.
pub open spec fn request_of(t: Seq<char>) -> RequestShow {
    let l = lines(t);
    let first = words(
        if l.len() > 0 {
            l[0]
        } else {
            Seq::empty()
        },
    );
    let target = if first.len() > 1 {
        first[1]
    } else {
        "/"@
    };
    let (path, query) = match cut(target, '?') {
        Some((p, q)) => (p, q),
        None => (target, Seq::empty()),
    };
    let headers = if l.len() > 0 {
        l.skip(1)
    } else {
        l
    };
    RequestShow {
        method: if first.len() > 0 {
            first[0]
        } else {
            Seq::empty()
        },
        path,
        query,
        ws_key: if upgrades(headers) {
            last_key(headers)
        } else {
            None
        },
    }
}

/// The request that some bytes write.
pub fn read_request(b: &[u8]) -> (r: Request)
    ensures
        r@ == request_of(lossy_text(b@)),
{
    let t = lossy(b);
    read_text(t.as_str())
}

proof fn lemma_no_both(l: Seq<char>)
    ensures
        !(asks_upgrade(l) && key_in(l) is Some),
{
    reveal_strlit("upgrade");
    reveal_strlit("sec-websocket-key");
}

/// The request that a text writes.
pub fn read_text(t: &str) -> (r: Request)
    ensures
        r@ == request_of(t@),
{
    let l = split_lines(t);
    let ghost ls = lines(t@);
    assert(ls.len() == l@.len());
    let first = if l.len() > 0 {
        assert(ls[0] == l@[0]@);
        split_words(l[0].as_str())
    } else {
        proof {
            reveal_strlit("");
            assert(""@ =~= Seq::<char>::empty());
        }
        split_words("")
    };
    let ghost fs = first.deep_view();
    assert(fs.len() == first@.len());
    let method = if first.len() > 0 {
        assert(fs[0] == first@[0]@);
        String::from_str(first[0].as_str())
    } else {
        String::new()
    };
    let target = if first.len() > 1 {
        assert(fs[1] == first@[1]@);
        String::from_str(first[1].as_str())
    } else {
        String::from_str("/")
    };
    let (path, query) = match split_once(target.as_str(), '?') {
        Some((p, q)) => (p, q),
        None => (target, String::new()),
    };
    let mut upgrade = false;
    let mut ws_key: Option<String> = None;
    let ghost headers = if ls.len() > 0 {
        ls.skip(1)
    } else {
        ls
    };
    let mut i: usize = 1;
    assert(headers.take(0) =~= Seq::<Seq<char>>::empty());
    while i < l.len()
        invariant
            1 <= i,
            l@.len() > 0 ==> i <= l@.len(),
            ls == l.deep_view(),
            ls.len() == l@.len(),
            l@.len() > 0 ==> headers == ls.skip(1),
            l@.len() == 0 ==> headers.len() == 0,
            l@.len() == 0 ==> i == 1,
            upgrade == upgrades(headers.take(i - 1)),
            match ws_key {
                Some(k) => last_key(headers.take(i - 1)) == Some(k@),
                None => last_key(headers.take(i - 1)) is None,
            },
        decreases l@.len() - i,
    {
        let h = l[i].as_str();
        proof {
            assert(ls[i as int] == l@[i as int]@);
            assert(headers.take(i as int).drop_last() =~= headers.take(i - 1));
            assert(headers.take(i as int).last() == h@);
            lemma_no_both(h@);
        }
        if let Some((k, v)) = split_once(h, ':') {
            let k = trim(k.as_str());
            let v = trim(v.as_str());
            if same_but_case(k.as_str(), "upgrade") && same_but_case(v.as_str(), "websocket") {
                upgrade = true;
            } else if same_but_case(k.as_str(), "sec-websocket-key") {
                ws_key = Some(v);
            }
        }
        i += 1;
    }
    assert(headers.take(i - 1) =~= headers);
    let r = Request {
        method,
        path,
        query,
        ws_key: if upgrade {
            ws_key
        } else {
            None
        },
    };
    assert(r@ =~= request_of(t@));
    r
}

/// What to do with a request.
#[derive(Debug, Clone, Copy, PartialEq, Eq, Structural)]
pub enum Admission {
    /// A live session.
    Session,
    /// No more sessions: 503.
    Full,
    /// Only GET is served: 405.
    NotGet,
    /// An answer by its path.
    Route,
}

/// What to do with a request, given the live sessions.
pub open spec fn admitted(r: RequestShow, sessions: usize) -> Admission {
    if r.method != "GET"@ {
        Admission::NotGet
    } else if r.path == "/ws"@ && r.ws_key is Some {
        if sessions >= MAX_WS {
            Admission::Full
        } else {
            Admission::Session
        }
    } else {
        Admission::Route
    }
}

/// What to do with a request, given how many live sessions there are.
pub fn triage(r: &Request, sessions: usize) -> (a: Admission)
    ensures
        a == admitted(r@, sessions),
{
    if !same_text(r.method.as_str(), "GET") {
        Admission::NotGet
    } else if same_text(r.path.as_str(), "/ws") && r.ws_key.is_some() {
        if sessions >= MAX_WS {
            Admission::Full
        } else {
            Admission::Session
        }
    } else {
        Admission::Route
    }
}

/// Where a path leads.
#[derive(Debug, Clone, Copy, PartialEq, Eq, Structural)]
pub enum Route {
    /// The page.
    Ui,
    /// Prometheus.
    Metrics,
    /// The state of the markets.
    Health,
    /// Whether every book is live.
    Ready,
    /// The view of a market.
    Book(usize),
    /// The delta of the book.
    Cvd,
    /// The candles of a market.
    Footprint(usize),
    /// A market that is not registered.
    NoMarket,
    /// Nowhere.
    Unknown,
}

/// The first market with a key, from the `i`-th on.
pub open spec fn market_at(keys: Seq<Seq<char>>, k: Seq<char>, i: int) -> Option<int>
    decreases keys.len() - i,
{
    if i < 0 || i >= keys.len() {
        None
    } else if keys[i] == k {
        Some(i)
    } else {
        market_at(keys, k, i + 1)
    }
}

/// Where a path leads, with the markets registered.
pub open spec fn route_of(path: Seq<char>, keys: Seq<Seq<char>>) -> Route {
    if path == "/"@ || path == "/ui"@ {
        Route::Ui
    } else if path == "/metrics"@ {
        Route::Metrics
    } else if path == "/health"@ {
        Route::Health
    } else if path == "/ready"@ {
        Route::Ready
    } else if starts(path, "/book/"@) {
        match market_at(keys, path.skip("/book/"@.len() as int), 0) {
            Some(i) => Route::Book(i as usize),
            None => Route::NoMarket,
        }
    } else if path == "/cvd"@ {
        Route::Cvd
    } else if starts(path, "/footprint/"@) {
        match market_at(keys, path.skip("/footprint/"@.len() as int), 0) {
            Some(i) => Route::Footprint(i as usize),
            None => Route::NoMarket,
        }
    } else {
        Route::Unknown
    }
}

/// The first market with the key that stands behind a prefix of a path.
fn find_market(path: &str, prefix: &str, keys: &[&str]) -> (r: Option<usize>)
    requires
        starts(path@, prefix@),
    ensures
        match r {
            Some(i) => market_at(keys.deep_view(), path@.skip(prefix@.len() as int), 0) == Some(
                i as int,
            ),
            None => market_at(keys.deep_view(), path@.skip(prefix@.len() as int), 0) is None,
        },
{
    let v = chars_of(path);
    let p = chars_of(prefix);
    let k = text_between(&v, p.len(), v.len());
    let ghost ks = keys.deep_view();
    assert(k@ =~= path@.skip(prefix@.len() as int));
    let mut i: usize = 0;
    while i < keys.len()
        invariant
            i <= keys@.len(),
            ks == keys.deep_view(),
            ks.len() == keys@.len(),
            k@ == path@.skip(prefix@.len() as int),
            market_at(ks, k@, 0) == market_at(ks, k@, i as int),
        decreases keys@.len() - i,
    {
        assert(ks[i as int] == keys@[i as int]@);
        if same_text(keys[i], k.as_str()) {
            return Some(i);
        }
        i += 1;
    }
    None
}

/// Where a path leads, with the keys of the markets registered.
pub fn route(path: &str, keys: &[&str]) -> (r: Route)
    ensures
        r == route_of(path@, keys.deep_view()),
{
    if same_text(path, "/") || same_text(path, "/ui") {
        Route::Ui
    } else if same_text(path, "/metrics") {
        Route::Metrics
    } else if same_text(path, "/health") {
        Route::Health
    } else if same_text(path, "/ready") {
        Route::Ready
    } else if starts_with(path, "/book/") {
        match find_market(path, "/book/", keys) {
            Some(i) => Route::Book(i),
            None => Route::NoMarket,
        }
    } else if same_text(path, "/cvd") {
        Route::Cvd
    } else if starts_with(path, "/footprint/") {
        match find_market(path, "/footprint/", keys) {
            Some(i) => Route::Footprint(i),
            None => Route::NoMarket,
        }
    } else {
        Route::Unknown
    }
}

/// The code of an answer: whether every book is live, and whether there is a delta, decide
/// where the route leaves it open.
pub open spec fn code_of(r: Route, all_live: bool, delta: bool) -> u16 {
    match r {
        Route::Ready => if all_live {
            200
        } else {
            503
        },
        Route::Cvd => if delta {
            200
        } else {
            503
        },
        Route::NoMarket => 404,
        Route::Unknown => 404,
        _ => 200,
    }
}

/// The code of an answer.
pub fn status(r: Route, all_live: bool, delta: bool) -> (c: u16)
    ensures
        c == code_of(r, all_live, delta),
{
    match r {
        Route::Ready => if all_live {
            200
        } else {
            503
        },
        Route::Cvd => if delta {
            200
        } else {
            503
        },
        Route::NoMarket => 404,
        Route::Unknown => 404,
        _ => 200,
    }
}

/// The type of an answer: refusals are plain text.
pub open spec fn type_of(r: Route, code: u16) -> Seq<char> {
    match r {
        Route::Ui => "text/html; charset=utf-8"@,
        Route::Metrics => "text/plain; version=0.0.4"@,
        Route::NoMarket => "text/plain"@,
        Route::Unknown => "text/plain"@,
        Route::Cvd => if code == 200 {
            "application/json"@
        } else {
            "text/plain"@
        },
        _ => "application/json"@,
    }
}

/// The type of an answer.
pub fn content_type(r: Route, code: u16) -> (t: &'static str)
    ensures
        t@ == type_of(r, code),
{
    match r {
        Route::Ui => "text/html; charset=utf-8",
        Route::Metrics => "text/plain; version=0.0.4",
        Route::NoMarket => "text/plain",
        Route::Unknown => "text/plain",
        Route::Cvd => if code == 200 {
            "application/json"
        } else {
            "text/plain"
        },
        _ => "application/json",
    }
}

/// What an answer says that brings no data, if it is such a one.
pub open spec fn refusal_of(r: Route, delta: bool) -> Option<Seq<char>> {
    match r {
        Route::Cvd => if delta {
            None
        } else {
            Some("requiere spot y perp en vivo\n"@)
        },
        Route::NoMarket => Some("mercado no registrado\n"@),
        Route::Unknown => Some(
            "rutas: / /ui /ws /health /ready /metrics /cvd /book/<m> /footprint/<m>\n"@,
        ),
        _ => None,
    }
}

/// The body of an answer that brings no data, if it is such a one.
pub fn refusal(r: Route, delta: bool) -> (t: Option<&'static str>)
    ensures
        (match t {
            Some(b) => Some(b@),
            None => None,
        }) == refusal_of(r, delta),
{
    match r {
        Route::Cvd => if delta {
            None
        } else {
            Some("requiere spot y perp en vivo\n")
        },
        Route::NoMarket => Some("mercado no registrado\n"),
        Route::Unknown => Some(
            "rutas: / /ui /ws /health /ready /metrics /cvd /book/<m> /footprint/<m>\n",
        ),
        _ => None,
    }
}

/// The reason that goes with a code.
pub open spec fn reason_of(code: u16) -> Seq<char> {
    if code == 200 {
        "OK"@
    } else if code == 404 {
        "Not Found"@
    } else if code == 405 {
        "Method Not Allowed"@
    } else {
        "Service Unavailable"@
    }
}

/// The head of an answer.
pub open spec fn head_text(code: u16, ctype: Seq<char>, len: nat) -> Seq<char> {
    "HTTP/1.1 "@ + dec(code as nat) + " "@ + reason_of(code) + "\r\nContent-Type: "@ + ctype
        + "\r\nContent-Length: "@ + dec(len)
        + "\r\nCache-Control: no-store\r\nX-Content-Type-Options: nosniff\r\nConnection: close\r\n\r\n"@
}

/// The head of an answer whose body has `len` bytes.
pub fn head(code: u16, ctype: &str, len: usize) -> (r: String)
    ensures
        r@ == head_text(code, ctype@, len as nat),
{
    let reason = if code == 200 {
        "OK"
    } else if code == 404 {
        "Not Found"
    } else if code == 405 {
        "Method Not Allowed"
    } else {
        "Service Unavailable"
    };
    let mut s = String::from_str("HTTP/1.1 ");
    push_dec(&mut s, code as u128);
    s.append(" ");
    s.append(reason);
    s.append("\r\nContent-Type: ");
    s.append(ctype);
    s.append("\r\nContent-Length: ");
    push_dec(&mut s, len as u128);
    s.append(
        "\r\nCache-Control: no-store\r\nX-Content-Type-Options: nosniff\r\nConnection: close\r\n\r\n",
    );
    s
}

/// A market as `/health` shows it.
pub struct Health<'a> {
    /// Name.
    pub market: &'a str,
    /// Phase.
    pub phase: Phase,
    /// Age of its book, ms.
    pub book_age_ms: i64,
    /// Epoch.
    pub epoch: u64,
    /// Resynchronisations.
    pub resyncs: u64,
}

/// The word of a phase.
pub open spec fn phase_word(p: Phase) -> Seq<char> {
    match p {
        Phase::Live => "live"@,
        Phase::Syncing => "syncing"@,
    }
}

/// One market of `/health`.
pub open spec fn health_text(h: Health<'_>) -> Seq<char> {
    "{\"book_age_ms\":"@ + int_text(h.book_age_ms as int) + ",\"epoch\":"@ + dec(h.epoch as nat)
        + ",\"market\":"@ + json_quoted(h.market@) + ",\"phase\":\""@ + phase_word(h.phase)
        + "\",\"resyncs\":"@ + dec(h.resyncs as nat) + "}"@
}

/// Some markets of `/health`.
pub open spec fn healths_text(v: Seq<Health<'_>>) -> Seq<char>
    decreases v.len(),
{
    if v.len() == 0 {
        Seq::empty()
    } else if v.len() == 1 {
        health_text(v[0])
    } else {
        healths_text(v.drop_last()) + ","@ + health_text(v.last())
    }
}

/// Every book is live.
pub open spec fn every_live(v: Seq<Health<'_>>) -> bool {
    forall|i: int| 0 <= i < v.len() ==> (#[trigger] v[i]).phase == Phase::Live
}

/// The body of `/health` and `/ready`.
pub open spec fn health_body(v: Seq<Health<'_>>) -> Seq<char> {
    "{\"markets\":["@ + healths_text(v) + "],\"status\":\""@ + (if every_live(v) {
        "live"@
    } else {
        "syncing"@
    }) + "\"}\n"@
}

/// Whether every book is live.
pub fn all_live(v: &[Health<'_>]) -> (r: bool)
    ensures
        r == every_live(v@),
{
    let mut i: usize = 0;
    while i < v.len()
        invariant
            i <= v@.len(),
            forall|j: int| 0 <= j < i ==> (#[trigger] v@[j]).phase == Phase::Live,
        decreases v@.len() - i,
    {
        if v[i].phase != Phase::Live {
            return false;
        }
        i += 1;
    }
    true
}

fn push_health(s: &mut String, h: &Health<'_>)
    ensures
        final(s)@ == old(s)@ + health_text(*h),
{
    s.append("{\"book_age_ms\":");
    push_int(s, h.book_age_ms as i128);
    s.append(",\"epoch\":");
    push_dec(s, h.epoch as u128);
    s.append(",\"market\":");
    let q = quoted(h.market);
    s.append(q.as_str());
    s.append(",\"phase\":\"");
    match h.phase {
        Phase::Live => s.append("live"),
        Phase::Syncing => s.append("syncing"),
    }
    s.append("\",\"resyncs\":");
    push_dec(s, h.resyncs as u128);
    s.append("}");
    assert(s@ =~= old(s)@ + health_text(*h));
}

/// The body of `/health` and `/ready`.
pub fn health(v: &[Health<'_>]) -> (r: String)
    ensures
        r@ == health_body(v@),
{
    let mut s = String::from_str("{\"markets\":[");
    let ghost s0 = s@;
    let mut i: usize = 0;
    assert(s0 + healths_text(v@.take(0)) =~= s0);
    while i < v.len()
        invariant
            i <= v@.len(),
            s@ == s0 + healths_text(v@.take(i as int)),
        decreases v@.len() - i,
    {
        let ghost was = s@;
        assert(v@.take(i + 1).drop_last() =~= v@.take(i as int));
        if i > 0 {
            s.append(",");
        }
        push_health(&mut s, &v[i]);
        i += 1;
        assert(s@ =~= s0 + healths_text(v@.take(i as int)));
    }
    assert(v@.take(i as int) =~= v@);
    s.append("],\"status\":\"");
    if all_live(v) {
        s.append("live");
    } else {
        s.append("syncing");
    }
    s.append("\"}\n");
    assert(s@ =~= health_body(v@));
    s
}

/// `/ready` answers 200 exactly where every book is live.
pub proof fn law_ready_iff_all_live(v: Seq<Health<'_>>, delta: bool)
    ensures
        code_of(Route::Ready, every_live(v), delta) == 200 <==> every_live(v),
        code_of(Route::Ready, every_live(v), delta) == 503 <==> !every_live(v),
{
}

} // verus!

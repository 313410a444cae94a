//! What is served: how a request is read, which answer it gets and what it says.

use crate::http::{
    admitted, asks_upgrade, code_of, health_text, key_in, last_key, market_at, phase_word,
    reason_of, refusal_of, request_of, route_of, type_of, upgrades, Admission, Health, RequestShow,
    Route,
};
use crate::json::json_quoted;
use crate::sync::Phase;
use crate::text::{dec, int_text, unsigned};
use crate::words::{
    alike, cut, first_of, lines, pieces, small, trimmed, trimmed_end, trimmed_start, whitespace,
    words, words_so_far,
};
use crate::ws::{
    asked_for, cvd_text, first_value, frame_text, hello_text, interval_of, param_of, quoted_list,
    value_in,
};
use vstd::prelude::*;

verus! {

proof fn lemma_first(t: Seq<char>, c: char, i: int)
    requires
        0 <= i <= t.len(),
    ensures
        first_of(t, c, i) matches Some(k) ==> i <= k < t.len() && t[k] == c && forall|j: int|
            i <= j < k ==> #[trigger] t[j] != c,
        first_of(t, c, i) is None ==> forall|j: int| i <= j < t.len() ==> #[trigger] t[j] != c,
    decreases t.len() - i,
{
    if i < t.len() && t[i] != c {
        lemma_first(t, c, i + 1);
    }
}

/// A text is cut at the first mark: what stands before has none, and both parts with the
/// mark between them are the text. One without the mark is not cut.
pub proof fn law_cut_at_the_first(t: Seq<char>, c: char)
    ensures
        cut(t, c) matches Some((a, b)) ==> a + seq![c] + b == t && !a.contains(c),
        cut(t, c) is None <==> !t.contains(c),
{
    lemma_first(t, c, 0);
    if cut(t, c) is Some {
        let k = first_of(t, c, 0)->0;
        let a = t.take(k);
        let b = t.skip(k + 1);
        assert(a + seq![c] + b == t);
        assert(t.contains(c));
        assert forall|j: int| 0 <= j < a.len() implies a[j] != c by {
            assert(t[j] != c);
        }
    }
}

/// Pieces joined again by a mark.
pub open spec fn joined(p: Seq<Seq<char>>, c: char) -> Seq<char>
    decreases p.len(),
{
    if p.len() == 0 {
        Seq::empty()
    } else if p.len() == 1 {
        p[0]
    } else {
        joined(p.drop_last(), c) + seq![c] + p.last()
    }
}

/// The pieces of a text have no mark, and joined by it they are the text.
pub proof fn law_pieces_join_again(t: Seq<char>, c: char)
    ensures
        pieces(t, c).len() > 0,
        joined(pieces(t, c), c) == t,
        forall|i: int| 0 <= i < pieces(t, c).len() ==> !(#[trigger] pieces(t, c)[i]).contains(c),
    decreases t.len(),
{
    let p = pieces(t, c);
    if t.len() > 0 {
        let f = t.drop_last();
        let q = pieces(f, c);
        law_pieces_join_again(f, c);
        if t.last() == c {
            assert(p.drop_last() == q);
            assert(joined(p, c) == joined(q, c) + seq![c] + Seq::<char>::empty());
            assert(t == f + seq![c] + Seq::<char>::empty());
            assert forall|i: int| 0 <= i < p.len() implies !(#[trigger] p[i]).contains(c) by {
                if i < q.len() {
                    assert(p[i] == q[i]);
                }
            }
        } else {
            assert(p.last() == q.last().push(t.last()));
            assert(p.drop_last() == q.drop_last());
            assert(!q[q.len() - 1].contains(c));
            if q.len() == 1 {
                assert(p[0] == q[0].push(t.last()));
            } else {
                assert(joined(p, c) == joined(q.drop_last(), c) + seq![c] + q.last().push(t.last()));
            }
            assert(joined(p, c) == f.push(t.last()));
            assert forall|i: int| 0 <= i < p.len() implies !(#[trigger] p[i]).contains(c) by {
                if i < q.len() - 1 {
                    assert(p[i] == q[i]);
                } else {
                    let w = q.last().push(t.last());
                    assert forall|j: int| 0 <= j < w.len() implies w[j] != c by {
                        if j < q.last().len() {
                            assert(w[j] == q.last()[j]);
                        }
                    }
                }
            }
            assert(t == f.push(t.last()));
        }
    }
}

/// A text is trimmed of white space alone, and of all of it at its ends.
pub proof fn law_trimmed_of_white_space(t: Seq<char>)
    ensures
        ({
            let r = trimmed(t);
            &&& r.len() > 0 ==> !whitespace(r[0]) && !whitespace(r.last())
            &&& exists|a: int|
                #![trigger t.subrange(a, a + r.len())]
                0 <= a && a + r.len() <= t.len() && r == t.subrange(a, a + r.len()) && (forall|
                    i: int,
                |
                    0 <= i < a ==> whitespace(#[trigger] t[i])) && (forall|i: int|
                    a + r.len() <= i < t.len() ==> whitespace(#[trigger] t[i]))
        }),
{
    let s = trimmed_start(t);
    let r = trimmed(t);
    let a = lemma_start(t);
    lemma_end(s);
    assert(r == t.subrange(a, a + r.len())) by {
        assert(forall|i: int| 0 <= i < r.len() ==> r[i] == s[i] && s[i] == t[a + i]);
    }
    assert forall|i: int| a + r.len() <= i < t.len() implies whitespace(#[trigger] t[i]) by {
        assert(t[i] == s[i - a]);
    }
    if r.len() > 0 {
        assert(r[0] == s[0]);
    }
}

proof fn lemma_start(t: Seq<char>) -> (a: int)
    ensures
        0 <= a <= t.len(),
        trimmed_start(t) == t.skip(a),
        forall|i: int| 0 <= i < a ==> whitespace(#[trigger] t[i]),
        trimmed_start(t).len() > 0 ==> !whitespace(trimmed_start(t)[0]),
    decreases t.len(),
{
    if t.len() > 0 && whitespace(t[0]) {
        let b = lemma_start(t.skip(1));
        assert(t.skip(1).skip(b) == t.skip(b + 1));
        assert forall|i: int| 0 <= i < b + 1 implies whitespace(#[trigger] t[i]) by {
            if i > 0 {
                assert(t.skip(1)[i - 1] == t[i]);
            }
        }
        b + 1
    } else {
        assert(t.skip(0) == t);
        0
    }
}

proof fn lemma_end(t: Seq<char>)
    ensures
        trimmed_end(t).len() <= t.len(),
        trimmed_end(t) == t.take(trimmed_end(t).len() as int),
        forall|i: int| trimmed_end(t).len() <= i < t.len() ==> whitespace(#[trigger] t[i]),
        trimmed_end(t).len() > 0 ==> !whitespace(trimmed_end(t).last()),
    decreases t.len(),
{
    if t.len() > 0 && whitespace(t.last()) {
        let f = t.drop_last();
        lemma_end(f);
        assert(trimmed_end(t) == t.take(trimmed_end(t).len() as int)) by {
            assert(f.take(trimmed_end(t).len() as int) == t.take(trimmed_end(t).len() as int));
        }
        assert forall|i: int| trimmed_end(t).len() <= i < t.len() implies whitespace(
            #[trigger] t[i],
        ) by {
            if i < f.len() {
                assert(f[i] == t[i]);
            }
        }
    } else {
        assert(t.take(t.len() as int) == t);
    }
}

/// The characters of some words, one after another.
pub open spec fn run_on(w: Seq<Seq<char>>) -> Seq<char>
    decreases w.len(),
{
    if w.len() == 0 {
        Seq::empty()
    } else {
        run_on(w.drop_last()) + w.last()
    }
}

/// A text without its white space.
pub open spec fn dense(t: Seq<char>) -> Seq<char>
    decreases t.len(),
{
    if t.len() == 0 {
        Seq::empty()
    } else if whitespace(t.last()) {
        dense(t.drop_last())
    } else {
        dense(t.drop_last()).push(t.last())
    }
}

/// The words of a text have no white space and are not empty; run together they are the
/// text without its white space.
pub proof fn law_words_apart_from_white_space(t: Seq<char>)
    ensures
        run_on(words(t)) == dense(t),
        forall|i: int|
            0 <= i < words(t).len() ==> (#[trigger] words(t)[i]).len() > 0 && forall|k: int|
                0 <= k < words(t)[i].len() ==> !whitespace(#[trigger] words(t)[i][k]),
{
    lemma_words(t);
    let (done, cur) = words_so_far(t);
    if cur.len() > 0 {
        assert(done.push(cur).drop_last() == done);
        assert forall|i: int| 0 <= i < words(t).len() implies (#[trigger] words(t)[i]).len() > 0
            && forall|k: int|
            0 <= k < words(t)[i].len() ==> !whitespace(#[trigger] words(t)[i][k]) by {
            if i < done.len() {
                assert(words(t)[i] == done[i]);
            }
        }
    } else {
        assert(run_on(done) + cur == run_on(done));
    }
}

proof fn lemma_words(t: Seq<char>)
    ensures
        ({
            let (done, cur) = words_so_far(t);
            &&& run_on(done) + cur == dense(t)
            &&& forall|k: int| 0 <= k < cur.len() ==> !whitespace(#[trigger] cur[k])
            &&& forall|i: int|
                0 <= i < done.len() ==> (#[trigger] done[i]).len() > 0 && forall|k: int|
                    0 <= k < done[i].len() ==> !whitespace(#[trigger] done[i][k])
        }),
    decreases t.len(),
{
    let (done, cur) = words_so_far(t);
    if t.len() > 0 {
        let f = t.drop_last();
        let (d, c) = words_so_far(f);
        lemma_words(f);
        if !whitespace(t.last()) {
            assert(run_on(d) + c.push(t.last()) == (run_on(d) + c).push(t.last()));
        } else if c.len() > 0 {
            assert(d.push(c).drop_last() == d);
            assert(run_on(done) + cur == run_on(d) + c);
            assert forall|i: int| 0 <= i < done.len() implies (#[trigger] done[i]).len() > 0
                && forall|k: int| 0 <= k < done[i].len() ==> !whitespace(#[trigger] done[i][k]) by {
                if i < d.len() {
                    assert(done[i] == d[i]);
                }
            }
        }
    } else {
        assert(run_on(done) + cur == Seq::<char>::empty());
    }
}

/// Capitals are told apart from no other letter than their small one.
pub proof fn law_alike_but_for_capitals(a: Seq<char>, b: Seq<char>)
    ensures
        alike(a, a),
        alike(a, b) <==> alike(b, a),
        alike(a, b) ==> a.len() == b.len() && forall|i: int|
            0 <= i < a.len() ==> (#[trigger] a[i] == b[i] || (a[i] as int - b[i] as int == 32 && 'A'
                <= b[i] <= 'Z') || (b[i] as int - a[i] as int == 32 && 'A' <= a[i] <= 'Z')),
{
    assert forall|i: int| alike(a, b) && 0 <= i < a.len() implies (#[trigger] a[i] == b[i] || (
    a[i] as int - b[i] as int == 32 && 'A' <= b[i] <= 'Z') || (b[i] as int - a[i] as int == 32
        && 'A' <= a[i] <= 'Z')) by {
        assert(small(a[i]) == small(b[i]));
    }
    assert forall|i: int| alike(b, a) && 0 <= i < a.len() implies small(#[trigger] a[i]) == small(
        b[i],
    ) by {
        assert(small(b[i]) == small(a[i]));
    }
    assert forall|i: int| alike(a, b) && 0 <= i < b.len() implies small(#[trigger] b[i]) == small(
        a[i],
    ) by {
        assert(small(a[i]) == small(b[i]));
    }
}

/// The headers ask for a session where one of them does, and the key is that of the last
/// header that has one.
pub proof fn law_headers_are_searched(h: Seq<Seq<char>>)
    ensures
        upgrades(h) <==> exists|i: int| 0 <= i < h.len() && asks_upgrade(#[trigger] h[i]),
        last_key(h) is None <==> forall|i: int| 0 <= i < h.len() ==> key_in(#[trigger] h[i]) is None,
        last_key(h) is Some ==> exists|i: int|
            0 <= i < h.len() && key_in(#[trigger] h[i]) == last_key(h) && forall|j: int|
                i < j < h.len() ==> key_in(#[trigger] h[j]) is None,
    decreases h.len(),
{
    if h.len() > 0 {
        let f = h.drop_last();
        law_headers_are_searched(f);
        assert(h[h.len() - 1] == h.last());
        assert(forall|i: int| 0 <= i < f.len() ==> f[i] == h[i]);
        if upgrades(f) {
            let i = choose|i: int| 0 <= i < f.len() && asks_upgrade(#[trigger] f[i]);
            assert(asks_upgrade(h[i]));
        }
        if key_in(h.last()) is None && last_key(f) is Some {
            let i = choose|i: int|
                0 <= i < f.len() && key_in(#[trigger] f[i]) == last_key(f) && forall|j: int|
                    i < j < f.len() ==> key_in(#[trigger] f[j]) is None;
            assert(key_in(h[i]) == last_key(h));
            assert forall|j: int| i < j < h.len() implies key_in(#[trigger] h[j]) is None by {
                if j < f.len() {
                    assert(f[j] == h[j]);
                }
            }
        }
    }
}

/// A request is its first line: the method, and the path with what follows a question mark.
/// It has a key only where its headers ask for a session.
pub proof fn law_request_is_its_first_line(t: Seq<char>)
    ensures
        ({
            let r = request_of(t);
            let l = lines(t);
            &&& l.len() > 0 && words(l[0]).len() > 1 ==> {
                &&& r.method == words(l[0])[0]
                &&& r.query.len() > 0 ==> words(l[0])[1] == r.path + seq!['?'] + r.query
                &&& !r.path.contains('?')
                &&& !words(l[0])[1].contains('?') ==> r.path == words(l[0])[1] && r.query.len()
                    == 0
            }
            &&& l.len() > 0 && r.ws_key is Some ==> upgrades(l.skip(1)) && r.ws_key == last_key(
                l.skip(1),
            )
            &&& l.len() > 0 && upgrades(l.skip(1)) ==> r.ws_key == last_key(l.skip(1))
        }),
{
    let l = lines(t);
    if l.len() > 0 && words(l[0]).len() > 1 {
        law_cut_at_the_first(words(l[0])[1], '?');
    }
}

/// Only `GET` is admitted; a session is opened at `/ws` with a key while fewer than sixteen
/// are open.
pub proof fn law_sessions_are_admitted(r: RequestShow, sessions: usize)
    ensures
        admitted(r, sessions) == Admission::NotGet <==> r.method != "GET"@,
        admitted(r, sessions) == Admission::Session <==> r.method == "GET"@ && r.path == "/ws"@
            && r.ws_key is Some && sessions < 16,
        admitted(r, sessions) == Admission::Full <==> r.method == "GET"@ && r.path == "/ws"@
            && r.ws_key is Some && sessions >= 16,
        admitted(r, sessions) == Admission::Route <==> r.method == "GET"@ && !(r.path == "/ws"@
            && r.ws_key is Some),
{
}

proof fn lemma_market_at(keys: Seq<Seq<char>>, k: Seq<char>, i: int)
    requires
        0 <= i <= keys.len(),
    ensures
        market_at(keys, k, i) matches Some(j) ==> i <= j < keys.len() && keys[j] == k,
        market_at(keys, k, i) is None ==> forall|j: int| i <= j < keys.len() ==> #[trigger] keys[j]
            != k,
    decreases keys.len() - i,
{
    if i < keys.len() && keys[i] != k {
        lemma_market_at(keys, k, i + 1);
    }
}

/// Each path is served by its own route; a market's book and candles are those of its key,
/// and a key that is not registered is no market.
pub proof fn law_paths_have_their_route(keys: Seq<Seq<char>>, k: Seq<char>)
    requires
        keys.len() <= usize::MAX,
    ensures
        route_of("/"@, keys) == Route::Ui,
        route_of("/ui"@, keys) == Route::Ui,
        route_of("/metrics"@, keys) == Route::Metrics,
        route_of("/health"@, keys) == Route::Health,
        route_of("/ready"@, keys) == Route::Ready,
        route_of("/cvd"@, keys) == Route::Cvd,
        keys.contains(k) ==> (route_of("/book/"@ + k, keys) matches Route::Book(i) && i
            < keys.len() && keys[i as int] == k),
        keys.contains(k) ==> (route_of("/footprint/"@ + k, keys) matches Route::Footprint(i) && i
            < keys.len() && keys[i as int] == k),
        !keys.contains(k) ==> route_of("/book/"@ + k, keys) == Route::NoMarket,
        !keys.contains(k) ==> route_of("/footprint/"@ + k, keys) == Route::NoMarket,
{
    reveal_strlit("/");
    reveal_strlit("/ui");
    reveal_strlit("/metrics");
    reveal_strlit("/health");
    reveal_strlit("/ready");
    reveal_strlit("/cvd");
    reveal_strlit("/book/");
    reveal_strlit("/footprint/");
    lemma_market_at(keys, k, 0);
    assert("/ui"@[1] == 'u' && "/metrics"@[1] == 'm' && "/health"@[1] == 'h' && "/ready"@[1] == 'r');
    assert("/cvd"@[1] == 'c' && "/book/"@[1] == 'b' && "/footprint/"@[1] == 'f');
    let b = "/book/"@ + k;
    let f = "/footprint/"@ + k;
    assert(b[1] == 'b' && f[1] == 'f');
    assert(b.take(6) == "/book/"@ && b.skip(6) == k);
    assert(f.take(11) == "/footprint/"@ && f.skip(11) == k);
    assert(f.take(6) != "/book/"@) by {
        assert(f.take(6)[1] == 'f');
    }
    assert("/cvd"@.len() < 6);
}

/// What is there is answered with 200, what is not with 404, and what is not ready yet with
/// 503; only a page that cannot be given is refused in words.
pub proof fn law_answers_have_their_code(r: Route, live: bool, delta: bool)
    ensures
        code_of(r, live, delta) == 404 <==> r == Route::NoMarket || r == Route::Unknown,
        code_of(r, live, delta) == 503 <==> (r == Route::Ready && !live) || (r == Route::Cvd
            && !delta),
        code_of(r, live, delta) == 200 || code_of(r, live, delta) == 404 || code_of(r, live, delta)
            == 503,
        refusal_of(r, delta) is Some <==> r == Route::NoMarket || r == Route::Unknown || (r
            == Route::Cvd && !delta),
        type_of(r, code_of(r, live, delta)) == "application/json"@ <== r == Route::Health || r
            == Route::Ready || r is Book || r is Footprint || (r == Route::Cvd && delta),
        r == Route::Ui ==> type_of(r, 200) == "text/html; charset=utf-8"@,
        r == Route::Metrics ==> type_of(r, 200) == "text/plain; version=0.0.4"@,
        refusal_of(r, delta) is Some ==> type_of(r, code_of(r, live, delta)) == "text/plain"@,
        reason_of(200) == "OK"@ && reason_of(404) == "Not Found"@ && reason_of(405)
            == "Method Not Allowed"@ && reason_of(503) == "Service Unavailable"@,
{
}

proof fn lemma_first_value(p: Seq<Seq<char>>, name: Seq<char>, i: int)
    requires
        0 <= i <= p.len(),
    ensures
        first_value(p, name, i) is None ==> forall|j: int|
            i <= j < p.len() ==> value_in(#[trigger] p[j], name) is None,
        first_value(p, name, i) is Some ==> exists|j: int|
            i <= j < p.len() && value_in(#[trigger] p[j], name) == first_value(p, name, i)
                && forall|k: int| i <= k < j ==> value_in(#[trigger] p[k], name) is None,
    decreases p.len() - i,
{
    if i < p.len() && value_in(p[i], name) is None {
        lemma_first_value(p, name, i + 1);
        if first_value(p, name, i) is Some {
            let j = choose|j: int|
                i + 1 <= j < p.len() && value_in(#[trigger] p[j], name) == first_value(
                    p,
                    name,
                    i + 1,
                ) && forall|k: int| i + 1 <= k < j ==> value_in(#[trigger] p[k], name) is None;
            assert(value_in(p[j], name) == first_value(p, name, i));
        }
    }
}

/// A parameter is what follows its name and an equals sign in the first piece of the query
/// that has them.
pub proof fn law_parameter_is_after_its_name(query: Seq<char>, name: Seq<char>)
    ensures
        param_of(query, name) matches Some(v) ==> exists|i: int|
            0 <= i < pieces(query, '&').len() && #[trigger] pieces(query, '&')[i] == name + seq![
                '=',
            ] + v,
        !name.contains('=') && param_of(query, name) is None ==> forall|i: int, v: Seq<char>|
            #![trigger pieces(query, '&')[i], name + seq!['='] + v]
            0 <= i < pieces(query, '&').len() ==> pieces(query, '&')[i] != name + seq!['='] + v,
{
    let p = pieces(query, '&');
    lemma_first_value(p, name, 0);
    if param_of(query, name) is Some {
        let i = choose|j: int|
            0 <= j < p.len() && value_in(#[trigger] p[j], name) == first_value(p, name, 0)
                && forall|k: int| 0 <= k < j ==> value_in(#[trigger] p[k], name) is None;
        law_cut_at_the_first(p[i], '=');
    } else if !name.contains('=') {
        assert forall|i: int, v: Seq<char>|
            #![trigger pieces(query, '&')[i], name + seq!['='] + v]
            0 <= i < pieces(query, '&').len() implies pieces(query, '&')[i] != name + seq!['=']
            + v by {
            let t = p[i];
            if t == name + seq!['='] + v {
                law_cut_at_the_first(t, '=');
                assert(t[name.len() as int] == '=');
                assert(t.contains('='));
                let (a, b) = cut(t, '=')->0;
                lemma_first(t, '=', 0);
                let k = first_of(t, '=', 0)->0;
                if k < name.len() {
                    assert(t[k] == name[k]);
                    assert(name.contains('='));
                }
                assert(k == name.len());
                assert(a == name);
                assert(value_in(t, name) is Some);
            }
        }
    }
}

/// The interval is what the query asks, kept between a tenth of a second and five seconds;
/// a quarter of a second where it asks for none.
pub proof fn law_interval_is_kept_in_bounds(query: Seq<char>)
    ensures
        100 <= interval_of(query) <= 5_000,
        param_of(query, "interval_ms"@) is None ==> interval_of(query) == 250,
        param_of(query, "interval_ms"@) matches Some(t) ==> {
            &&& unsigned(t) is None ==> interval_of(query) == 250
            &&& unsigned(t) matches Some(n) ==> {
                &&& 100 <= n <= 5_000 ==> interval_of(query) == n
                &&& n < 100 ==> interval_of(query) == 100
                &&& n > 5_000 ==> interval_of(query) == 5_000
            }
        },
{
}

/// A market is sent where the query names it among its markets, or names none.
pub proof fn law_markets_asked_for(query: Seq<char>, key: Seq<char>)
    ensures
        param_of(query, "markets"@) is None ==> asked_for(query, key),
        param_of(query, "markets"@) matches Some(t) ==> (asked_for(query, key) <==> exists|i: int|
            0 <= i < pieces(t, ',').len() && #[trigger] pieces(t, ',')[i] == key),
{
}

/// A text has a member of an object: its name, a colon and its value, which ends there.
pub open spec fn has_member(t: Seq<char>, name: Seq<char>, v: Seq<char>) -> bool {
    exists|a: Seq<char>, b: Seq<char>| #[trigger]
        (a + name + v + b) == t && b.len() > 0 && (b[0] == ',' || b[0] == '}')
}

proof fn lemma_member(t: Seq<char>, a: Seq<char>, name: Seq<char>, v: Seq<char>, b: Seq<char>)
    requires
        t =~= a + name + v + b,
        b.len() > 0,
        b[0] == ',' || b[0] == '}',
    ensures
        has_member(t, name, v),
{
}

/// The health of a market tells its own figures, each under its name.
#[verifier::rlimit(60)]
pub proof fn law_health_tells_the_market(h: Health<'_>)
    ensures
        has_member(health_text(h), "\"book_age_ms\":"@, int_text(h.book_age_ms as int)),
        has_member(health_text(h), "\"epoch\":"@, dec(h.epoch as nat)),
        has_member(health_text(h), "\"market\":"@, json_quoted(h.market@)),
        has_member(health_text(h), "\"resyncs\":"@, dec(h.resyncs as nat)),
        has_member(
            health_text(h),
            "\"phase\":"@,
            if h.phase == Phase::Live {
                "\"live\""@
            } else {
                "\"syncing\""@
            },
        ),
{
    reveal_strlit("{\"book_age_ms\":");
    reveal_strlit(",\"epoch\":");
    reveal_strlit(",\"market\":");
    reveal_strlit(",\"phase\":\"");
    reveal_strlit("\",\"resyncs\":");
    reveal_strlit("}");
    reveal_strlit("\"book_age_ms\":");
    reveal_strlit("\"epoch\":");
    reveal_strlit("\"market\":");
    reveal_strlit("\"phase\":");
    reveal_strlit("\"resyncs\":");
    reveal_strlit("\"live\"");
    reveal_strlit("\"syncing\"");
    reveal_strlit("live");
    reveal_strlit("syncing");
    let t = health_text(h);
    let n0 = int_text(h.book_age_ms as int);
    let n1 = dec(h.epoch as nat);
    let n2 = json_quoted(h.market@);
    let n3 = phase_word(h.phase);
    let n4 = dec(h.resyncs as nat);
    let k0 = "{\"book_age_ms\":"@;
    let k1 = ",\"epoch\":"@;
    let k2 = ",\"market\":"@;
    let k3 = ",\"phase\":\""@;
    let k4 = "\",\"resyncs\":"@;
    let k5 = "}"@;
    let q3 = if h.phase == Phase::Live {
        "\"live\""@
    } else {
        "\"syncing\""@
    };
    assert(q3 == seq!['"'] + n3 + seq!['"']);
    assert(k0 == seq!['{'] + "\"book_age_ms\":"@);
    assert(k1 == seq![','] + "\"epoch\":"@);
    assert(k2 == seq![','] + "\"market\":"@);
    assert(k3 == seq![','] + "\"phase\":"@ + seq!['"']);
    assert(k4 == seq!['"'] + seq![','] + "\"resyncs\":"@);
    lemma_member(t, seq!['{'], "\"book_age_ms\":"@, n0, k1 + n1 + k2 + n2 + k3 + n3 + k4 + n4 + k5);
    lemma_member(
        t,
        k0 + n0 + seq![','],
        "\"epoch\":"@,
        n1,
        k2 + n2 + k3 + n3 + k4 + n4 + k5,
    );
    lemma_member(
        t,
        k0 + n0 + k1 + n1 + seq![','],
        "\"market\":"@,
        n2,
        k3 + n3 + k4 + n4 + k5,
    );
    lemma_member(
        t,
        k0 + n0 + k1 + n1 + k2 + n2 + seq![','],
        "\"phase\":"@,
        q3,
        seq![','] + "\"resyncs\":"@ + n4 + k5,
    );
    lemma_member(
        t,
        k0 + n0 + k1 + n1 + k2 + n2 + k3 + n3 + seq!['"', ','],
        "\"resyncs\":"@,
        n4,
        k5,
    );
}

/// The first message of a session tells its interval and its markets.
pub proof fn law_hello_tells_the_session(keys: Seq<Seq<char>>, interval_ms: u64)
    ensures
        has_member(hello_text(keys, interval_ms), "\"interval_ms\":"@, dec(interval_ms as nat)),
        has_member(
            hello_text(keys, interval_ms),
            "\"markets\":"@,
            seq!['['] + quoted_list(keys) + seq![']'],
        ),
        has_member(hello_text(keys, interval_ms), "\"type\":"@, "\"hello\""@),
{
    reveal_strlit("{\"interval_ms\":");
    reveal_strlit(",\"markets\":[");
    reveal_strlit("],\"type\":\"hello\"}");
    reveal_strlit("\"interval_ms\":");
    reveal_strlit("\"markets\":");
    reveal_strlit("\"type\":");
    reveal_strlit("\"hello\"");
    let t = hello_text(keys, interval_ms);
    let n = dec(interval_ms as nat);
    let q = quoted_list(keys);
    let k0 = "{\"interval_ms\":"@;
    let k1 = ",\"markets\":["@;
    let k2 = "],\"type\":\"hello\"}"@;
    assert(k0 == seq!['{'] + "\"interval_ms\":"@);
    assert(k1 == seq![','] + "\"markets\":"@ + seq!['[']);
    assert(k2 == seq![']'] + seq![','] + "\"type\":"@ + "\"hello\""@ + seq!['}']);
    lemma_member(t, seq!['{'], "\"interval_ms\":"@, n, k1 + q + k2);
    lemma_member(
        t,
        k0 + n + seq![','],
        "\"markets\":"@,
        seq!['['] + q + seq![']'],
        seq![','] + "\"type\":"@ + "\"hello\""@ + seq!['}'],
    );
    lemma_member(
        t,
        k0 + n + k1 + q + seq![']', ','],
        "\"type\":"@,
        "\"hello\""@,
        seq!['}'],
    );
}

/// A message of a session tells its kind, its market and what it carries.
pub proof fn law_message_tells_its_market(kind: Seq<char>, key: Seq<char>, data: Seq<char>)
    ensures
        has_member(frame_text(kind, key, data), "\"type\":"@, seq!['"'] + kind + seq!['"']),
        has_member(frame_text(kind, key, data), "\"key\":"@, seq!['"'] + key + seq!['"']),
        has_member(frame_text(kind, key, data), "\"data\":"@, data),
        has_member(cvd_text(data), "\"type\":"@, "\"cvd\""@),
        has_member(cvd_text(data), "\"data\":"@, data),
{
    reveal_strlit("{\"type\":\"");
    reveal_strlit("\",\"key\":\"");
    reveal_strlit("\",\"data\":");
    reveal_strlit("}");
    reveal_strlit("{\"type\":\"cvd\",\"data\":");
    reveal_strlit("\"type\":");
    reveal_strlit("\"key\":");
    reveal_strlit("\"data\":");
    reveal_strlit("\"cvd\"");
    let t = frame_text(kind, key, data);
    let u = cvd_text(data);
    let k0 = "{\"type\":\""@;
    let k1 = "\",\"key\":\""@;
    let k2 = "\",\"data\":"@;
    let k3 = "}"@;
    assert(k0 == seq!['{'] + "\"type\":"@ + seq!['"']);
    assert(k1 == seq!['"'] + seq![','] + "\"key\":"@ + seq!['"']);
    assert(k2 == seq!['"'] + seq![','] + "\"data\":"@);
    assert("{\"type\":\"cvd\",\"data\":"@ == seq!['{'] + "\"type\":"@ + "\"cvd\""@ + seq![',']
        + "\"data\":"@);
    lemma_member(
        t,
        seq!['{'],
        "\"type\":"@,
        seq!['"'] + kind + seq!['"'],
        seq![','] + "\"key\":"@ + seq!['"'] + key + k2 + data + k3,
    );
    lemma_member(
        t,
        k0 + kind + seq!['"', ','],
        "\"key\":"@,
        seq!['"'] + key + seq!['"'],
        seq![','] + "\"data\":"@ + data + k3,
    );
    lemma_member(t, k0 + kind + k1 + key + seq!['"', ','], "\"data\":"@, data, k3);
    lemma_member(
        u,
        seq!['{'],
        "\"type\":"@,
        "\"cvd\""@,
        seq![','] + "\"data\":"@ + data + k3,
    );
    lemma_member(
        u,
        seq!['{'] + "\"type\":"@ + "\"cvd\""@ + seq![','],
        "\"data\":"@,
        data,
        k3,
    );
}

} // verus!

//! What holds of a Kraken line over everything that reaches it.

use crate::event::{depth_of, lemma_depth_joined, EventView, Level, RxStamp};
use crate::kraken::{
    as_levels, as_levels_down, book_event, book_next, books_next, books_of, changed, checksum_of,
    cut_asks, cut_bids, envelope_of, filled, frame_next, law_diff_is_the_change,
    lemma_changed_sorted, levels_next, mirrored, numbered, raw_levels, trades_next, trades_of,
    BookSeen, KrakenProtocol, KrakenState, TradeSeen,
};
use crate::json::json_array;
use crate::line_laws::{line_run, line_take, LineInput};
use crate::net::Protocol;
use crate::num::clamp_u64;
use crate::ordmap::{
    key_lt, lemma_append, lemma_put, lemma_rank_is, lemma_rank_splits, put, rank, sorted,
};
use vstd::prelude::*;

verus! {

/// The levels of an event, raw.
pub open spec fn raw_of(v: Seq<Level>) -> Seq<(i64, i64)> {
    Seq::new(v.len(), |i: int| (v[i].px.0, v[i].qty.0))
}

/// The book of a consumer that applies the events in order: none before a snapshot.
pub open spec fn replayed(log: Seq<EventView>) -> Option<(Seq<(i64, i64)>, Seq<(i64, i64)>)>
    decreases log.len(),
{
    if log.len() == 0 {
        None
    } else {
        match log.last() {
            EventView::Snapshot(s) => Some((filled(raw_of(s.bids)), filled(raw_of(s.asks)))),
            EventView::Depth(d) => match replayed(log.drop_last()) {
                Some((b, a)) => Some((changed(b, raw_of(d.bids)), changed(a, raw_of(d.asks)))),
                None => None,
            },
            _ => replayed(log.drop_last()),
        }
    }
}

/// The mirror is in order and within its depth.
pub open spec fn mirror_sound(s: KrakenState) -> bool {
    &&& sorted(s.bids)
    &&& sorted(s.asks)
    &&& s.bids.len() <= s.n
    &&& s.asks.len() <= s.n
}

/// The depth given so far, `d`, is numbered after `c0` without gaps, starts with a
/// snapshot and, unless one is awaited, makes the mirror.
pub open spec fn line_told(c0: u64, s: KrakenState, d: Seq<EventView>) -> bool {
    &&& mirror_sound(s)
    &&& s.counter == clamp_u64(c0 + d.len())
    &&& forall|i: int| 0 <= i < d.len() ==> numbered(#[trigger] d[i], clamp_u64(c0 + 1 + i))
    &&& d.len() > 0 ==> d[0] is Snapshot
    &&& d.len() == 0 ==> s.awaiting
    &&& !s.awaiting ==> replayed(d) == Some((s.bids, s.asks))
}

proof fn lemma_filled_up(m: Seq<(i64, i64)>)
    requires
        sorted(m),
        forall|i: int| 0 <= i < m.len() ==> (#[trigger] m[i]).1 > 0,
    ensures
        filled(m) == m,
    decreases m.len(),
{
    if m.len() > 0 {
        let u = m.drop_last();
        assert(sorted(u)) by {
            assert forall|i: int, j: int| 0 <= i < j < u.len() implies key_lt(
                #[trigger] u[i].0,
                #[trigger] u[j].0,
            ) by {
                assert(u[i] == m[i] && u[j] == m[j]);
            }
        }
        assert forall|i: int| 0 <= i < u.len() implies (#[trigger] u[i]).1 > 0 by {
            assert(u[i] == m[i]);
        }
        lemma_filled_up(u);
        assert(m[m.len() - 1].1 > 0);
        assert(crate::ordmap::all_before(u, m.last().0)) by {
            assert forall|i: int| 0 <= i < u.len() implies key_lt(
                #[trigger] u[i].0,
                m.last().0,
            ) by {
                assert(u[i] == m[i]);
                assert(key_lt(m[i].0, m[m.len() - 1].0));
            }
        }
        lemma_append(u, m.last().0, m.last().1);
        assert(filled(m) =~= m);
    }
}

/// A part of a sorted mirror is sorted.
proof fn lemma_part_sorted(m: Seq<(i64, i64)>, a: int, b: int)
    requires
        sorted(m),
        0 <= a <= b <= m.len(),
    ensures
        sorted(m.subrange(a, b)),
{
    let u = m.subrange(a, b);
    assert forall|i: int, j: int| 0 <= i < j < u.len() implies key_lt(
        #[trigger] u[i].0,
        #[trigger] u[j].0,
    ) by {
        assert(u[i] == m[i + a] && u[j] == m[j + a]);
    }
}

proof fn lemma_filled_down(m: Seq<(i64, i64)>)
    requires
        sorted(m),
        forall|i: int| 0 <= i < m.len() ==> (#[trigger] m[i]).1 > 0,
    ensures
        filled(raw_of(as_levels_down(m))) == m,
    decreases m.len(),
{
    let v = raw_of(as_levels_down(m));
    if m.len() > 0 {
        let u = m.subrange(1, m.len() as int);
        lemma_part_sorted(m, 1, m.len() as int);
        assert forall|i: int| 0 <= i < u.len() implies (#[trigger] u[i]).1 > 0 by {
            assert(u[i] == m[i + 1]);
        }
        lemma_filled_down(u);
        assert(v.drop_last() =~= raw_of(as_levels_down(u)));
        assert(v.last() == m[0]);
        assert(m[0].1 > 0);
        assert forall|i: int| 0 <= i < u.len() implies !key_lt(#[trigger] u[i].0, m[0].0) by {
            assert(u[i] == m[i + 1]);
            assert(key_lt(m[0].0, m[i + 1].0));
        }
        lemma_rank_is(u, m[0].0, 0);
        if u.len() > 0 {
            assert(u[0] == m[1]);
            assert(key_lt(m[0].0, m[1].0));
        }
        assert(put(u, m[0].0, m[0].1) =~= m);
    } else {
        assert(v =~= Seq::<(i64, i64)>::empty());
        assert(m =~= Seq::<(i64, i64)>::empty());
    }
}

/// The mirror of a snapshot is in order, and every quantity is positive.
proof fn lemma_filled_sound(v: Seq<(i64, i64)>)
    ensures
        sorted(filled(v)),
        forall|i: int| 0 <= i < filled(v).len() ==> (#[trigger] filled(v)[i]).1 > 0,
    decreases v.len(),
{
    if v.len() > 0 {
        let u = filled(v.drop_last());
        lemma_filled_sound(v.drop_last());
        if v.last().1 > 0 {
            lemma_put(u, v.last().0, v.last().1);
            lemma_rank_splits(u, v.last().0);
            assert forall|i: int| 0 <= i < filled(v).len() implies (#[trigger] filled(v)[i]).1
                > 0 by {
                let r = rank(u, v.last().0) as int;
                if i < r {
                    assert(filled(v)[i] == u[i]);
                } else if i > r {
                    if filled(v).len() == u.len() {
                        assert(filled(v)[i] == u[i]);
                    } else {
                        assert(filled(v)[i] == u[i - 1]);
                    }
                }
            }
        }
    }
}

/// A book message keeps what holds of the line.
proof fn lemma_levels_told(
    c0: u64,
    s: KrakenState,
    d: Seq<EventView>,
    snapshot: bool,
    bids: Seq<(i64, i64)>,
    asks: Seq<(i64, i64)>,
    checksum: u32,
    ts: u64,
    rx: RxStamp,
)
    requires
        line_told(c0, s, d),
    ensures
        ({
            let p = levels_next(s, snapshot, bids, asks, checksum, ts, rx);
            &&& line_told(c0, p.done.state, d + p.done.events)
            &&& depth_of(p.done.events) == p.done.events
            &&& s.resync ==> p.done.state.resync
            &&& p.done.state.n == s.n
            &&& p.done.state.depth == s.depth
        }),
{
    let p = levels_next(s, snapshot, bids, asks, checksum, ts, rx);
    let m = mirrored(s, snapshot, bids, asks);
    let t = p.done.state;
    assert(d + Seq::<EventView>::empty() =~= d);
    lemma_mirror_kept(s, snapshot, bids, asks);
    if snapshot {
        let b = filled(bids);
        let a = filled(asks);
        lemma_filled_sound(bids);
        lemma_filled_sound(asks);
        assert forall|i: int| 0 <= i < m.bids.len() implies (#[trigger] m.bids[i]).1 > 0 by {
            if b.len() > s.n {
                assert(m.bids[i] == b[i + (b.len() - s.n)]);
            }
        }
        assert forall|i: int| 0 <= i < m.asks.len() implies (#[trigger] m.asks[i]).1 > 0 by {
            assert(m.asks[i] == a[i]);
        }
        lemma_filled_down(m.bids);
        lemma_filled_up(m.asks);
        assert(raw_of(as_levels(m.asks)) =~= m.asks);
    } else {
        let b = changed(s.bids, bids);
        let a = changed(s.asks, asks);
        law_diff_is_the_change(s, bids, asks);
        let vb = bids + cut_bids(b, s.n);
        let va = asks + cut_asks(a, s.n);
        assert(raw_of(as_levels(vb)) =~= vb);
        assert(raw_of(as_levels(va)) =~= va);
    }
    assert(mirror_sound(t));
    if p.done.events.len() > 0 {
        let e = book_event(s, t, snapshot, bids, asks, ts, rx);
        assert(p.done.events =~= seq![e]);
        let n = d + p.done.events;
        assert(n =~= d.push(e));
        assert(n.drop_last() =~= d);
        assert(n.last() == e);
        assert(p.done.events.drop_last() =~= Seq::<EventView>::empty());
        assert(depth_of(Seq::<EventView>::empty()) =~= Seq::<EventView>::empty());
        assert(depth_of(p.done.events) =~= p.done.events);
        assert(numbered(e, t.counter as int));
        assert forall|i: int| 0 <= i < n.len() implies numbered(
            #[trigger] n[i],
            clamp_u64(c0 + 1 + i),
        ) by {
            if i < d.len() {
                assert(n[i] == d[i]);
            }
        }
        assert(d.len() > 0 ==> n[0] == d[0]);
    } else {
        assert(depth_of(p.done.events) =~= p.done.events);
    }
}

proof fn lemma_books_told(
    c0: u64,
    s: KrakenState,
    d: Seq<EventView>,
    snapshot: bool,
    v: Seq<BookSeen>,
    rx: RxStamp,
)
    requires
        line_told(c0, s, d),
    ensures
        ({
            let p = books_next(s, snapshot, v, rx);
            &&& line_told(c0, p.done.state, d + p.done.events)
            &&& depth_of(p.done.events) == p.done.events
            &&& s.resync ==> p.done.state.resync
            &&& p.done.state.n == s.n
            &&& p.done.state.depth == s.depth
        }),
    decreases v.len(),
{
    assert(d + Seq::<EventView>::empty() =~= d);
    assert(depth_of(Seq::<EventView>::empty()) =~= Seq::<EventView>::empty());
    if v.len() > 0 {
        let u = v.drop_last();
        lemma_books_told(c0, s, d, snapshot, u, rx);
        let p = books_next(s, snapshot, u, rx);
        if !(p.stop || p.done.outcome is Err) {
            let b = v.last();
            let t = p.done.state;
            let e = d + p.done.events;
            let q = book_next(t, snapshot, b, rx);
            assert(e + Seq::<EventView>::empty() =~= e);
            let bids = raw_levels(b.bids);
            let asks = raw_levels(b.asks);
            let ts = match b.timestamp {
                Some(x) => crate::time::stamp_ms(x),
                None => Some(0int),
            };
            if ts is Some && bids is Ok && asks is Ok {
                lemma_levels_told(
                    c0,
                    t,
                    e,
                    snapshot,
                    bids->Ok_0,
                    asks->Ok_0,
                    b.checksum,
                    ts->0 as u64,
                    rx,
                );
            }
            lemma_depth_joined(p.done.events, q.done.events);
            assert(e + q.done.events =~= d + (p.done.events + q.done.events));
        }
    }
}

proof fn lemma_trades_silent(v: Seq<TradeSeen>, rx: RxStamp)
    ensures
        depth_of(trades_next(v, rx).0) == Seq::<EventView>::empty(),
    decreases v.len(),
{
    if v.len() > 0 {
        lemma_trades_silent(v.drop_last(), rx);
        let (ev, r) = trades_next(v.drop_last(), rx);
        let n = trades_next(v, rx).0;
        if n.len() > ev.len() {
            assert(n.drop_last() =~= ev);
        }
    }
}

proof fn lemma_frame_told(
    c0: u64,
    s: KrakenState,
    d: Seq<EventView>,
    text: Seq<char>,
    rx: RxStamp,
)
    requires
        line_told(c0, s, d),
    ensures
        ({
            let p = frame_next(s, text, rx);
            &&& line_told(c0, p.state, d + depth_of(p.events))
            &&& s.resync ==> p.state.resync
            &&& p.state.n == s.n
            &&& p.state.depth == s.depth
        }),
{
    assert(d + Seq::<EventView>::empty() =~= d);
    assert(depth_of(Seq::<EventView>::empty()) =~= Seq::<EventView>::empty());
    if let Ok(env) = envelope_of(text) {
        if env.method is None && env.data is Some {
            if let Ok(items) = json_array(env.data->0) {
                if env.channel == Some("book"@) && s.depth {
                    if let Ok(v) = books_of(items) {
                        lemma_books_told(c0, s, d, env.kind == Some("snapshot"@), v, rx);
                    }
                } else if let Ok(v) = trades_of(items) {
                    lemma_trades_silent(v, rx);
                }
            }
        }
    }
}

/// A line over everything that reaches it, from a state that awaits a snapshot (a new
/// line, or one whose checksum disagreed): it gives no depth before a verified snapshot;
/// from there on its depth is numbered without gaps, after the last id it had given; the
/// mirror never holds more than `n` levels a side; and a consumer that applies the
/// events in order has exactly the mirror, unless a snapshot is awaited again.
pub proof fn law_kraken_line(s: KrakenState, inputs: Seq<LineInput>)
    requires
        s.awaiting,
        mirror_sound(s),
    ensures
        ({
            let (t, log) = line_run::<KrakenProtocol>(s, inputs);
            &&& line_told(s.counter, t, depth_of(log))
            &&& t.n == s.n
            &&& t.depth == s.depth
        }),
    decreases inputs.len(),
{
    if inputs.len() > 0 {
        let before = inputs.drop_last();
        law_kraken_line(s, before);
        let (t, log) = line_run::<KrakenProtocol>(s, before);
        let (u, more) = line_take::<KrakenProtocol>(t, inputs.last());
        let d = depth_of(log);
        lemma_depth_joined(log, more);
        assert(depth_of(Seq::<EventView>::empty()) =~= Seq::<EventView>::empty());
        assert(d + Seq::<EventView>::empty() =~= d);
        match inputs.last() {
            LineInput::Frame(text, rx) => lemma_frame_told(s.counter, t, d, text, rx),
            _ => {},
        }
    }
}

/// Between a checksum that disagreed, or anything else that made the line await a
/// snapshot, and the next verified snapshot no depth goes out: what comes next, if
/// anything, is a snapshot, with the id after the last one given.
pub proof fn law_no_depth_until_a_snapshot(
    s: KrakenState,
    before: Seq<LineInput>,
    after: Seq<LineInput>,
)
    requires
        s.awaiting,
        mirror_sound(s),
        line_run::<KrakenProtocol>(s, before).0.awaiting,
    ensures
        ({
            let (t, log) = line_run::<KrakenProtocol>(s, before);
            let d = depth_of(line_run::<KrakenProtocol>(t, after).1);
            &&& t.counter == clamp_u64(s.counter + depth_of(log).len())
            &&& d.len() > 0 ==> d[0] is Snapshot && numbered(d[0], clamp_u64(t.counter + 1))
            &&& d.len() == 0 ==> line_run::<KrakenProtocol>(t, after).0.awaiting
        }),
{
    law_kraken_line(s, before);
    law_kraken_line(line_run::<KrakenProtocol>(s, before).0, after);
}

/// A checksum that disagrees gives no event and is no error: the line awaits a snapshot,
/// and asks for one the next time it is asked whether it needs one, whatever frames come
/// before.
pub proof fn law_mismatch_asks_for_a_snapshot(
    s: KrakenState,
    snapshot: bool,
    bids: Seq<(i64, i64)>,
    asks: Seq<(i64, i64)>,
    checksum: u32,
    ts: u64,
    rx: RxStamp,
    frames: Seq<(Seq<char>, RxStamp)>,
)
    requires
        mirror_sound(s),
        snapshot || !s.awaiting,
        checksum_of(mirrored(s, snapshot, bids, asks)) != Some(checksum),
    ensures
        ({
            let p = levels_next(s, snapshot, bids, asks, checksum, ts, rx);
            &&& p.done.outcome == Ok::<(), Seq<char>>(())
            &&& p.done.events.len() == 0
            &&& p.done.state.awaiting
            &&& p.done.state.counter == s.counter
            &&& KrakenProtocol::resync_next(frames_next(p.done.state, frames)).1
        }),
{
    let p = levels_next(s, snapshot, bids, asks, checksum, ts, rx);
    lemma_mirror_kept(s, snapshot, bids, asks);
    let d = lemma_frames_told(p.done.state, frames);
}

/// The frame tells one book message, with these raw levels, checksum and time.
pub open spec fn tells_book(
    text: Seq<char>,
    snapshot: bool,
    bids: Seq<(i64, i64)>,
    asks: Seq<(i64, i64)>,
    checksum: u32,
    ts: u64,
) -> bool {
    &&& envelope_of(text) matches Ok(env)
    &&& env.method is None
    &&& env.channel == Some("book"@)
    &&& (env.kind == Some("snapshot"@)) == snapshot
    &&& env.data matches Some(data)
    &&& json_array(data) matches Ok(items)
    &&& books_of(items) matches Ok(v)
    &&& v.len() == 1
    &&& raw_levels(v[0].bids) == Ok::<Seq<(i64, i64)>, Seq<char>>(bids)
    &&& raw_levels(v[0].asks) == Ok::<Seq<(i64, i64)>, Seq<char>>(asks)
    &&& v[0].checksum == checksum
    &&& match v[0].timestamp {
        Some(t) => crate::time::stamp_ms(t) == Some(ts as int),
        None => ts == 0,
    }
}

proof fn lemma_one_book(
    s: KrakenState,
    text: Seq<char>,
    snapshot: bool,
    bids: Seq<(i64, i64)>,
    asks: Seq<(i64, i64)>,
    checksum: u32,
    ts: u64,
    rx: RxStamp,
)
    requires
        s.depth,
        tells_book(text, snapshot, bids, asks, checksum, ts),
    ensures
        KrakenProtocol::parse_next(s, text, rx) == levels_next(
            s,
            snapshot,
            bids,
            asks,
            checksum,
            ts,
            rx,
        ).done,
{
    let env = envelope_of(text)->Ok_0;
    let v = books_of(json_array(env.data->0)->Ok_0)->Ok_0;
    let p = levels_next(s, snapshot, bids, asks, checksum, ts, rx);
    assert(v.drop_last() =~= Seq::<BookSeen>::empty());
    assert(v.last() == v[0]);
    assert(books_next(s, snapshot, v.drop_last(), rx).done.events.len() == 0);
    assert(book_next(s, snapshot, v[0], rx) == p);
    assert(Seq::<EventView>::empty() + p.done.events =~= p.done.events);
    assert(books_next(s, snapshot, v, rx).done == p.done);
}

/// A book message on a line, after whatever reached it from a state that awaits a
/// snapshot. It goes out, as one event with the next id, if and only if it is a snapshot
/// or none is awaited, and the checksum of the mirror after it, trimmed to `n` levels a
/// side, is the one it brings; then a consumer that applied every event has exactly that
/// mirror. An incremental message while a snapshot is awaited changes nothing. A checksum
/// that disagrees gives no event and no error: the line asks for a snapshot the next time
/// it is asked whether it needs one, whatever frames come before, and whatever comes
/// after, its next depth is a snapshot with the next id.
pub proof fn law_kraken_book(
    s: KrakenState,
    before: Seq<LineInput>,
    text: Seq<char>,
    snapshot: bool,
    bids: Seq<(i64, i64)>,
    asks: Seq<(i64, i64)>,
    checksum: u32,
    ts: u64,
    rx: RxStamp,
    frames: Seq<(Seq<char>, RxStamp)>,
    after: Seq<LineInput>,
)
    requires
        s.awaiting,
        s.depth,
        mirror_sound(s),
        tells_book(text, snapshot, bids, asks, checksum, ts),
    ensures
        ({
            let (t, log) = line_run::<KrakenProtocol>(s, before);
            let p = KrakenProtocol::parse_next(t, text, rx);
            let u = p.state;
            let m = mirrored(t, snapshot, bids, asks);
            let d = depth_of(log) + p.events;
            let heard = snapshot || !t.awaiting;
            let agrees = checksum_of(m) == Some(checksum);
            let next = depth_of(line_run::<KrakenProtocol>(u, after).1);
            &&& p.outcome == Ok::<(), Seq<char>>(())
            &&& line_told(s.counter, u, d)
            &&& heard && agrees ==> {
                &&& p.events.len() == 1
                &&& (p.events[0] is Snapshot) == snapshot
                &&& numbered(p.events[0], clamp_u64(s.counter + depth_of(log).len() + 1))
                &&& !u.awaiting
                &&& u.bids == m.bids
                &&& u.asks == m.asks
                &&& replayed(d) == Some((m.bids, m.asks))
            }
            &&& !heard ==> p.events.len() == 0 && u == t
            &&& heard && !agrees ==> {
                &&& p.events.len() == 0
                &&& u.awaiting
                &&& u.counter == t.counter
                &&& KrakenProtocol::resync_next(frames_next(u, frames)).1
                &&& next.len() > 0 ==> next[0] is Snapshot && numbered(
                    next[0],
                    clamp_u64(u.counter + 1),
                )
            }
        }),
{
    let (t, log) = line_run::<KrakenProtocol>(s, before);
    let p = levels_next(t, snapshot, bids, asks, checksum, ts, rx);
    law_kraken_line(s, before);
    lemma_one_book(t, text, snapshot, bids, asks, checksum, ts, rx);
    lemma_levels_told(
        s.counter,
        t,
        depth_of(log),
        snapshot,
        bids,
        asks,
        checksum,
        ts,
        rx,
    );
    if (snapshot || !t.awaiting) && checksum_of(mirrored(t, snapshot, bids, asks)) != Some(
        checksum,
    ) {
        law_mismatch_asks_for_a_snapshot(t, snapshot, bids, asks, checksum, ts, rx, frames);
        lemma_mirror_kept(t, snapshot, bids, asks);
        law_kraken_line(p.done.state, after);
    }
}

/// The line after some frames.
pub open spec fn frames_next(s: KrakenState, frames: Seq<(Seq<char>, RxStamp)>) -> KrakenState
    decreases frames.len(),
{
    if frames.len() == 0 {
        s
    } else {
        frame_next(frames_next(s, frames.drop_last()), frames.last().0, frames.last().1).state
    }
}

proof fn lemma_mirror_kept(
    s: KrakenState,
    snapshot: bool,
    bids: Seq<(i64, i64)>,
    asks: Seq<(i64, i64)>,
)
    requires
        mirror_sound(s),
    ensures
        mirror_sound(mirrored(s, snapshot, bids, asks)),
{
    let b = if snapshot {
        filled(bids)
    } else {
        changed(s.bids, bids)
    };
    let a = if snapshot {
        filled(asks)
    } else {
        changed(s.asks, asks)
    };
    lemma_filled_sound(bids);
    lemma_filled_sound(asks);
    lemma_changed_sorted(s.bids, bids);
    lemma_changed_sorted(s.asks, asks);
    if b.len() > s.n {
        lemma_part_sorted(b, b.len() - s.n, b.len() as int);
        assert(b.skip(b.len() - s.n) =~= b.subrange(b.len() - s.n, b.len() as int));
    }
    if a.len() > s.n {
        lemma_part_sorted(a, 0, s.n as int);
        assert(a.take(s.n as int) =~= a.subrange(0, s.n as int));
    }
}

proof fn lemma_frames_told(s: KrakenState, frames: Seq<(Seq<char>, RxStamp)>) -> (d: Seq<EventView>)
    requires
        mirror_sound(s),
        s.awaiting,
        s.resync,
    ensures
        line_told(s.counter, frames_next(s, frames), d),
        frames_next(s, frames).resync,
    decreases frames.len(),
{
    if frames.len() == 0 {
        Seq::empty()
    } else {
        let d = lemma_frames_told(s, frames.drop_last());
        let t = frames_next(s, frames.drop_last());
        lemma_frame_told(s.counter, t, d, frames.last().0, frames.last().1);
        d + depth_of(frame_next(t, frames.last().0, frames.last().1).events)
    }
}

} // verus!

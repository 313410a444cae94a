//! What holds of a line over everything that reaches it.

use crate::bybit::{global_id, law_ids_never_go_back, BybitProtocol, BybitState};
use crate::coinbase::{
    depth_next, depths_next, envelope_of, frame_next, market_next, message_next, numbered,
    sequence_next, trades_next, CoinbaseProtocol, CoinbaseState, EnvelopeSeen, ItemSeen,
    TradeSeen,
};
use crate::event::{depth_of, lemma_depth_joined, EventView, RxStamp};
use crate::fixed::Qty;
use crate::net::Protocol;
use crate::num::clamp_u64;
use crate::okx::{OkxProtocol, OkxState};
use vstd::prelude::*;

verus! {

/// What reaches a line.
pub enum LineInput {
    /// A frame.
    Frame(Seq<char>, RxStamp),
    /// The wish for a snapshot is taken.
    Resync,
    /// The book is subscribed to again.
    Resubscribe,
    /// The line connects.
    Connect,
}

/// A line of a protocol after an input, with the events that it gave.
pub open spec fn line_take<P: Protocol>(s: P::State, i: LineInput) -> (P::State, Seq<EventView>) {
    match i {
        LineInput::Frame(text, rx) => {
            let p = P::parse_next(s, text, rx);
            (p.state, p.events)
        },
        LineInput::Resync => (P::resync_next(s).0, Seq::empty()),
        LineInput::Resubscribe => (P::resubscribe_next(s).0, Seq::empty()),
        LineInput::Connect => (P::connect_next(s).0, Seq::empty()),
    }
}

/// A line of a protocol after some inputs, with all the events that it gave.
pub open spec fn line_run<P: Protocol>(s: P::State, inputs: Seq<LineInput>) -> (
    P::State,
    Seq<EventView>,
)
    decreases inputs.len(),
{
    if inputs.len() == 0 {
        (s, Seq::empty())
    } else {
        let (t, log) = line_run::<P>(s, inputs.drop_last());
        let (u, more) = line_take::<P>(t, inputs.last());
        (u, log + more)
    }
}

/// The depth given so far, `d`, is numbered after `c0` without gaps and starts with a
/// snapshot.
pub open spec fn counted_on(c0: u64, s: CoinbaseState, d: Seq<EventView>) -> bool {
    &&& s.counter == clamp_u64(c0 + d.len())
    &&& forall|i: int| 0 <= i < d.len() ==> numbered(#[trigger] d[i], clamp_u64(c0 + 1 + i))
    &&& d.len() > 0 ==> d[0] is Snapshot
    &&& d.len() == 0 ==> s.awaiting
}

proof fn lemma_items_counted(
    c0: u64,
    s: CoinbaseState,
    d: Seq<EventView>,
    v: Seq<ItemSeen>,
    rx: RxStamp,
)
    requires
        counted_on(c0, s, d),
    ensures
        counted_on(c0, depths_next(s, v, rx).state, d + depths_next(s, v, rx).events),
        depth_of(depths_next(s, v, rx).events) == depths_next(s, v, rx).events,
    decreases v.len(),
{
    let empty = Seq::<EventView>::empty();
    assert(d + empty =~= d);
    assert(depth_of(empty) =~= empty);
    if v.len() > 0 {
        let u = v.drop_last();
        lemma_items_counted(c0, s, d, u, rx);
        let p = depths_next(s, u, rx);
        if p.outcome is Ok {
            let q = depth_next(p.state, v.last(), rx);
            let e = d + p.events;
            assert(e + empty =~= e);
            lemma_depth_joined(p.events, q.events);
            assert(e + q.events =~= d + (p.events + q.events));
            if q.events.len() > 0 {
                let n = e + q.events;
                assert(q.events.len() == 1);
                assert(q.events.drop_last() =~= empty);
                assert(depth_of(q.events) =~= q.events);
                assert(n =~= e.push(q.events[0]));
                assert forall|i: int| 0 <= i < n.len() implies numbered(
                    #[trigger] n[i],
                    clamp_u64(c0 + 1 + i),
                ) by {
                    if i < e.len() {
                        assert(n[i] == e[i]);
                    }
                }
                assert(e.len() > 0 ==> n[0] == e[0]);
            } else {
                assert(q.events =~= empty);
            }
        }
    }
}

proof fn lemma_trades_silent(v: Seq<TradeSeen>, rx: RxStamp)
    ensures
        depth_of(trades_next(v, rx).0) == Seq::<EventView>::empty(),
    decreases v.len(),
{
    if v.len() > 0 {
        lemma_trades_silent(v.drop_last(), rx);
        let (ev, r) = trades_next(v.drop_last(), rx);
        let n = trades_next(v, rx).0;
        if n.len() > ev.len() {
            assert(n.drop_last() =~= ev);
        }
    }
}

proof fn lemma_market_silent(v: Seq<ItemSeen>, rx: RxStamp)
    ensures
        depth_of(market_next(v, rx).0) == Seq::<EventView>::empty(),
    decreases v.len(),
{
    if v.len() > 0 {
        lemma_market_silent(v.drop_last(), rx);
        let (ev, r) = market_next(v.drop_last(), rx);
        let (more, o) = trades_next(v.last().trades, rx);
        lemma_trades_silent(v.last().trades, rx);
        lemma_depth_joined(ev, more);
        assert(depth_of(ev) + depth_of(more) =~= Seq::<EventView>::empty());
    }
}

proof fn lemma_message_counted(
    c0: u64,
    s: CoinbaseState,
    d: Seq<EventView>,
    env: EnvelopeSeen,
    rx: RxStamp,
)
    requires
        counted_on(c0, s, d),
    ensures
        counted_on(c0, message_next(s, env, rx).state, d + depth_of(message_next(s, env, rx).events)),
{
    let empty = Seq::<EventView>::empty();
    assert(d + empty =~= d);
    assert(depth_of(empty) =~= empty);
    let t = sequence_next(s, env.sequence_num);
    assert(counted_on(c0, t, d));
    lemma_items_counted(c0, t, d, env.events, rx);
    lemma_market_silent(env.events, rx);
}

/// A line of Coinbase over everything that reaches it, from a state that awaits a snapshot
/// (a new line, or one whose sequence jumped): it gives no depth before a snapshot, and
/// from there on its depth is numbered without gaps, after the last id it had given.
pub proof fn law_coinbase_line(s: CoinbaseState, inputs: Seq<LineInput>)
    requires
        s.awaiting,
    ensures
        ({
            let (t, log) = line_run::<CoinbaseProtocol>(s, inputs);
            counted_on(s.counter, t, depth_of(log))
        }),
    decreases inputs.len(),
{
    let empty = Seq::<EventView>::empty();
    assert(depth_of(empty) =~= empty);
    if inputs.len() > 0 {
        let before = inputs.drop_last();
        law_coinbase_line(s, before);
        let (t, log) = line_run::<CoinbaseProtocol>(s, before);
        let (u, more) = line_take::<CoinbaseProtocol>(t, inputs.last());
        let d = depth_of(log);
        lemma_depth_joined(log, more);
        assert(d + empty =~= d);
        if let LineInput::Frame(text, rx) = inputs.last() {
            if let Ok(env) = envelope_of(text) {
                lemma_message_counted(s.counter, t, d, env, rx);
            }
        }
    }
}

/// From a jump in the sequence of the connection to the next snapshot no depth goes out:
/// the message that shows it, and whatever reaches the line afterwards, give nothing or
/// first a snapshot, with the id after the last one given.
pub proof fn law_no_depth_after_a_jump(
    s: CoinbaseState,
    env: EnvelopeSeen,
    rx: RxStamp,
    after: Seq<LineInput>,
)
    requires
        s.last_seq is Some,
        env.sequence_num is Some,
        env.sequence_num->0 != s.last_seq->0 + 1,
        env.kind != Some("error"@),
    ensures
        ({
            let p = message_next(s, env, rx);
            let (t, log) = line_run::<CoinbaseProtocol>(p.state, after);
            let d = depth_of(p.events) + depth_of(log);
            &&& d.len() > 0 ==> d[0] is Snapshot && numbered(d[0], clamp_u64(s.counter + 1))
            &&& d.len() == 0 ==> t.awaiting
        }),
{
    let empty = Seq::<EventView>::empty();
    let t = sequence_next(s, env.sequence_num);
    let p = message_next(s, env, rx);
    let d = depth_of(p.events);
    assert(empty + d =~= d);
    assert(message_next(CoinbaseState { awaiting: true, ..s }, env, rx) == p);
    lemma_message_counted(s.counter, CoinbaseState { awaiting: true, ..s }, empty, env, rx);
    if d.len() == 0 {
        law_coinbase_line(p.state, after);
        assert(d + depth_of(line_run::<CoinbaseProtocol>(p.state, after).1) =~= depth_of(
            line_run::<CoinbaseProtocol>(p.state, after).1,
        ));
    }
}

/// The id of a depth event.
pub open spec fn depth_id(e: EventView) -> int {
    match e {
        EventView::Depth(d) => d.last_id as int,
        EventView::Snapshot(s) => s.last_update_id as int,
        _ => 0,
    }
}

/// At every moment of a run the ids of the venue fit their bits, and so do the restarts of
/// the service.
pub open spec fn ids_fit(s: BybitState, inputs: Seq<LineInput>) -> bool
    decreases inputs.len(),
{
    let t = line_run::<BybitProtocol>(s, inputs).0;
    &&& t.last_u < 0x1000_0000_0000
    &&& t.epoch < 0xf_ffff
    &&& inputs.len() > 0 ==> ids_fit(s, inputs.drop_last())
}

/// The ids of a line of Bybit never go back, whatever reaches it: also where it connects
/// again, and where the service restarts and counts from the start.
pub proof fn law_bybit_line(s: BybitState, inputs: Seq<LineInput>)
    requires
        ids_fit(s, inputs),
    ensures
        ({
            let (t, log) = line_run::<BybitProtocol>(s, inputs);
            let d = depth_of(log);
            &&& forall|i: int, j: int|
                #![trigger d[i], d[j]]
                0 <= i <= j < d.len() ==> depth_id(d[i]) <= depth_id(d[j])
            &&& forall|i: int|
                0 <= i < d.len() ==> global_id(s.epoch, s.last_u) <= depth_id(#[trigger] d[i])
                    && depth_id(d[i]) <= global_id(t.epoch, t.last_u)
            &&& global_id(s.epoch, s.last_u) <= global_id(t.epoch, t.last_u)
        }),
    decreases inputs.len(),
{
    let empty = Seq::<EventView>::empty();
    assert(depth_of(empty) =~= empty);
    if inputs.len() > 0 {
        let before = inputs.drop_last();
        law_bybit_line(s, before);
        let (t, log) = line_run::<BybitProtocol>(s, before);
        let (u, more) = line_take::<BybitProtocol>(t, inputs.last());
        let d = depth_of(log);
        let m = depth_of(more);
        lemma_depth_joined(log, more);
        assert(d + empty =~= d);
        if let LineInput::Frame(text, rx) = inputs.last() {
            lemma_bybit_frame(t, text, rx);
        }
        let n = d + m;
        assert(t.last_u < 0x1000_0000_0000 && t.epoch < 0xf_ffff) by {
            assert(ids_fit(s, before));
        }
        assert(global_id(t.epoch, t.last_u) <= global_id(u.epoch, u.last_u)) by {
            if u != t {
                law_ids_never_go_back(t, u.last_u);
            }
        }
        assert forall|i: int, j: int|
            #![trigger n[i], n[j]]
            0 <= i <= j < n.len() implies depth_id(n[i]) <= depth_id(n[j]) by {
            if j < d.len() {
                assert(n[i] == d[i] && n[j] == d[j]);
            } else if i < d.len() {
                assert(n[i] == d[i] && n[j] == m[j - d.len()]);
            } else {
                assert(n[i] == m[i - d.len()] && n[j] == m[j - d.len()]);
            }
        }
        assert forall|i: int| 0 <= i < n.len() implies global_id(s.epoch, s.last_u) <= depth_id(
            #[trigger] n[i],
        ) && depth_id(n[i]) <= global_id(u.epoch, u.last_u) by {
            if i < d.len() {
                assert(n[i] == d[i]);
            } else {
                assert(n[i] == m[i - d.len()]);
            }
        }
    }
}

/// A frame gives at most one depth event, with the id that the line then has.
proof fn lemma_bybit_frame(s: BybitState, text: Seq<char>, rx: RxStamp)
    ensures
        ({
            let p = crate::bybit::frame_next(s, text, rx);
            let m = depth_of(p.events);
            &&& m.len() <= 1
            &&& m.len() == 1 ==> depth_id(m[0]) == global_id(p.state.epoch, p.state.last_u)
            &&& p.state != s ==> p.state == crate::bybit::id_next(s, p.state.last_u)
        }),
{
    let empty = Seq::<EventView>::empty();
    let p = crate::bybit::frame_next(s, text, rx);
    assert(depth_of(empty) =~= empty);
    if p.events.len() == 1 {
        assert(p.events.drop_last() =~= empty);
    }
    if let Ok(env) = crate::bybit::envelope_of(text) {
        if env.data is Some {
            if let Ok(items) = crate::json::json_array(env.data->0) {
                if let Ok(v) = crate::bybit::trades_of(items) {
                    lemma_bybit_trades_silent(env.ts, v, rx);
                }
            }
        }
    }
    assert(p.events.len() == 0 ==> p.events =~= empty);
}

proof fn lemma_bybit_trades_silent(
    ts: Option<u64>,
    v: Seq<crate::bybit::TradeSeen>,
    rx: RxStamp,
)
    ensures
        depth_of(crate::bybit::trades_next(ts, v, rx).0) == Seq::<EventView>::empty(),
    decreases v.len(),
{
    if v.len() > 0 {
        lemma_bybit_trades_silent(ts, v.drop_last(), rx);
        let ev = crate::bybit::trades_next(ts, v.drop_last(), rx).0;
        let n = crate::bybit::trades_next(ts, v, rx).0;
        if n.len() > ev.len() {
            assert(n.drop_last() =~= ev);
        }
    }
}

/// A diff starts right after the event that it names as the one before it.
pub open spec fn follows_its_own(e: EventView) -> bool {
    e matches EventView::Depth(d) ==> d.prev_last_id is Some && d.first_id == d.prev_last_id->0 + 1
}

proof fn lemma_okx_books(contract: Qty, snapshot: bool, v: Seq<crate::okx::BookSeen>, rx: RxStamp)
    ensures
        forall|i: int|
            0 <= i < crate::okx::books_next(contract, snapshot, v, rx).0.len() ==> follows_its_own(
                #[trigger] crate::okx::books_next(contract, snapshot, v, rx).0[i],
            ),
    decreases v.len(),
{
    if v.len() > 0 {
        lemma_okx_books(contract, snapshot, v.drop_last(), rx);
        let ev = crate::okx::books_next(contract, snapshot, v.drop_last(), rx).0;
        let n = crate::okx::books_next(contract, snapshot, v, rx).0;
        assert forall|i: int| 0 <= i < n.len() implies follows_its_own(#[trigger] n[i]) by {
            if i < ev.len() {
                assert(n[i] == ev[i]);
            }
        }
    }
}

proof fn lemma_okx_trades(contract: Qty, v: Seq<crate::okx::TradeSeen>, rx: RxStamp)
    ensures
        forall|i: int|
            0 <= i < crate::okx::trades_next(contract, v, rx).0.len() ==> follows_its_own(
                #[trigger] crate::okx::trades_next(contract, v, rx).0[i],
            ),
    decreases v.len(),
{
    if v.len() > 0 {
        lemma_okx_trades(contract, v.drop_last(), rx);
        let ev = crate::okx::trades_next(contract, v.drop_last(), rx).0;
        let n = crate::okx::trades_next(contract, v, rx).0;
        assert forall|i: int| 0 <= i < n.len() implies follows_its_own(#[trigger] n[i]) by {
            if i < ev.len() {
                assert(n[i] == ev[i]);
            }
        }
    }
}

/// Every diff of a line of OKX starts right after the event that it names as the one
/// before it, as [`crate::arbitration::law_okx_fits`] asks.
pub proof fn law_okx_line(s: OkxState, inputs: Seq<LineInput>)
    ensures
        forall|i: int|
            0 <= i < line_run::<OkxProtocol>(s, inputs).1.len() ==> follows_its_own(
                #[trigger] line_run::<OkxProtocol>(s, inputs).1[i],
            ),
    decreases inputs.len(),
{
    if inputs.len() > 0 {
        let before = inputs.drop_last();
        law_okx_line(s, before);
        let (t, log) = line_run::<OkxProtocol>(s, before);
        let more = line_take::<OkxProtocol>(t, inputs.last()).1;
        if let LineInput::Frame(text, rx) = inputs.last() {
            if let Ok(env) = crate::okx::envelope_of(text) {
                if env.data is Some {
                    if let Ok(items) = crate::json::json_array(env.data->0) {
                        if let Ok(v) = crate::okx::books_of(items) {
                            lemma_okx_books(t.contract, env.action == Some("snapshot"@), v, rx);
                        }
                        if let Ok(v) = crate::okx::trades_of(items) {
                            lemma_okx_trades(t.contract, v, rx);
                        }
                    }
                }
            }
        }
        let n = log + more;
        assert forall|i: int| 0 <= i < n.len() implies follows_its_own(#[trigger] n[i]) by {
            if i < log.len() {
                assert(n[i] == log[i]);
            } else {
                assert(n[i] == more[i - log.len()]);
            }
        }
    }
}

} // verus!

//! What each venue's messages mean: who traded, at which price, and which side of the book
//! each level is of.

use crate::binance;
use crate::bybit;
use crate::coinbase;
use crate::event::{Aggressor, EventView, RxStamp};
use crate::fixed::{fixed8, number8, pow10, Qty, SCALE};
use crate::json::json_array;
use crate::kraken;
use crate::number_laws::law_integers_round_trip;
use crate::okx;
use crate::ordmap::{key_lt, sorted};
use crate::quote;
use crate::text::{all_digits, dec, ends, lemma_dec_value, starts, unsigned, value, within};
use crate::time::stamp_ms;
use vstd::prelude::*;

verus! {

/// A trade of Kraken is taken where its stamp, price and quantity are read and its side is
/// one of two: the taker bought exactly where the side says `buy`, and sold exactly where
/// it says `sell`. Price, quantity, id and time are those told.
pub proof fn law_kraken_trade_is_told(t: kraken::TradeSeen, rx: RxStamp)
    ensures
        kraken::trade_event(t, rx) is Ok <==> stamp_ms(t.timestamp) is Some && number8(t.price)
            is Ok && number8(t.qty) is Ok && (t.side == "buy"@ || t.side == "sell"@),
        kraken::trade_event(t, rx) matches Ok(e) ==> {
            &&& e matches EventView::Trade(a)
            &&& a.aggressor == Aggressor::Buy <==> t.side == "buy"@
            &&& a.aggressor == Aggressor::Sell <==> t.side == "sell"@
            &&& number8(t.price) matches Ok(p) && a.px.0 == p
            &&& number8(t.qty) matches Ok(q) && a.qty.0 == q
            &&& a.qty_normal is None
            &&& a.agg_id == t.trade_id && a.first_trade_id == t.trade_id && a.last_trade_id
                == t.trade_id
            &&& stamp_ms(t.timestamp) matches Some(ms) && (0 <= ms <= u64::MAX ==> a.trade_ts_ms
                == ms && a.exch_ts_ms == ms)
            &&& a.rx == rx
        },
{
    reveal_strlit("buy");
    reveal_strlit("sell");
    assert("buy"@.len() != "sell"@.len());
}

/// Two trades of Kraken that differ in their side alone have opposite takers.
pub proof fn law_kraken_sides_are_opposite(t: kraken::TradeSeen, rx: RxStamp)
    ensures
        ({
            let b = kraken::trade_event(kraken::TradeSeen { side: "buy"@, ..t }, rx);
            let s = kraken::trade_event(kraken::TradeSeen { side: "sell"@, ..t }, rx);
            &&& b is Ok <==> s is Ok
            &&& b matches Ok(e) ==> e->Trade_0.aggressor == Aggressor::Buy
            &&& s matches Ok(e) ==> e->Trade_0.aggressor == Aggressor::Sell
        }),
{
    reveal_strlit("buy");
    reveal_strlit("sell");
    assert("buy"@.len() != "sell"@.len());
}

/// The trades of a message of Kraken are told one by one, in order, up to the first that is
/// refused, whose error is the answer.
pub proof fn law_kraken_trades_in_order(v: Seq<kraken::TradeSeen>, rx: RxStamp)
    ensures
        ({
            let (ev, r) = kraken::trades_next(v, rx);
            &&& ev.len() <= v.len()
            &&& forall|i: int|
                0 <= i < ev.len() ==> (kraken::trade_event(v[i], rx) matches Ok(e) && e
                    == #[trigger] ev[i])
            &&& r is Ok ==> ev.len() == v.len()
            &&& r matches Err(m) ==> ev.len() < v.len() && kraken::trade_event(
                v[ev.len() as int],
                rx,
            ) == Err::<EventView, Seq<char>>(m)
        }),
    decreases v.len(),
{
    if v.len() > 0 {
        let front = v.drop_last();
        law_kraken_trades_in_order(front, rx);
        assert(forall|i: int| 0 <= i < front.len() ==> front[i] == v[i]);
        assert(v[v.len() - 1] == v.last());
    }
}

/// A message of Kraken on the trades' channel tells its updates' trades, on the book's its
/// books where the line feeds the book, and any other tells nothing; an answer to a request
/// is refused exactly where it says that it failed.
pub proof fn law_kraken_messages_by_channel(
    s: kraken::KrakenState,
    env: kraken::EnvelopeSeen,
    rx: RxStamp,
)
    ensures
        env.method is Some ==> {
            let p = kraken::message_next(s, env, rx);
            &&& p.state == s && p.events.len() == 0
            &&& p.outcome is Err <==> env.success == Some(false)
        },
        env.method is None && env.channel == Some("trade"@) && env.kind == Some("update"@)
            ==> (env.data matches Some(d) ==> (json_array(d) matches Ok(items) ==> (
        kraken::trades_of(items) matches Ok(v) ==> {
            let p = kraken::message_next(s, env, rx);
            &&& p.state == s
            &&& (p.events, p.outcome) == kraken::trades_next(v, rx)
        }))),
        env.method is None && env.channel == Some("book"@) && s.depth ==> (env.data matches Some(
            d,
        ) ==> (json_array(d) matches Ok(items) ==> (kraken::books_of(items) matches Ok(v)
            ==> kraken::message_next(s, env, rx) == kraken::books_next(
            s,
            env.kind == Some("snapshot"@),
            v,
            rx,
        ).done))),
        env.method is None && (env.data is None || (env.channel == Some("book"@) && !s.depth) || (
        env.channel == Some("trade"@) && env.kind != Some("update"@)) || (env.channel != Some(
            "book"@,
        ) && env.channel != Some("trade"@))) ==> {
            let p = kraken::message_next(s, env, rx);
            p.state == s && p.events.len() == 0 && p.outcome is Ok
        },
{
    reveal_strlit("book");
    reveal_strlit("trade");
    assert("book"@.len() != "trade"@.len());
}

/// A trade of Coinbase tells the side that rested: the taker bought exactly where the maker
/// sold, and sold exactly where the maker bought.
pub proof fn law_coinbase_trade_is_told(t: coinbase::TradeSeen, rx: RxStamp)
    ensures
        coinbase::trade_event(t, rx) is Ok <==> unsigned(t.trade_id) is Some && stamp_ms(t.time)
            is Some && fixed8(t.price) is Ok && fixed8(t.size) is Ok && (t.side == "SELL"@
            || t.side == "BUY"@),
        coinbase::trade_event(t, rx) matches Ok(e) ==> {
            &&& e matches EventView::Trade(a)
            &&& a.aggressor == Aggressor::Buy <==> t.side == "SELL"@
            &&& a.aggressor == Aggressor::Sell <==> t.side == "BUY"@
            &&& fixed8(t.price) matches Ok(p) && a.px.0 == p
            &&& fixed8(t.size) matches Ok(q) && a.qty.0 == q
            &&& a.qty_normal is None
            &&& unsigned(t.trade_id) matches Some(id) && a.agg_id == id && a.first_trade_id == id
                && a.last_trade_id == id
            &&& stamp_ms(t.time) matches Some(ms) && (0 <= ms <= u64::MAX ==> a.trade_ts_ms == ms
                && a.exch_ts_ms == ms)
            &&& a.rx == rx
        },
{
    reveal_strlit("SELL");
    reveal_strlit("BUY");
    assert("SELL"@.len() != "BUY"@.len());
}

/// The trades of a message of Coinbase are told one by one, in order, up to the first that
/// is refused, whose error is the answer.
pub proof fn law_coinbase_trades_in_order(v: Seq<coinbase::TradeSeen>, rx: RxStamp)
    ensures
        ({
            let (ev, r) = coinbase::trades_next(v, rx);
            &&& ev.len() <= v.len()
            &&& forall|i: int|
                0 <= i < ev.len() ==> (coinbase::trade_event(v[i], rx) matches Ok(e) && e
                    == #[trigger] ev[i])
            &&& r is Ok ==> ev.len() == v.len()
            &&& r matches Err(m) ==> ev.len() < v.len() && coinbase::trade_event(
                v[ev.len() as int],
                rx,
            ) == Err::<EventView, Seq<char>>(m)
        }),
    decreases v.len(),
{
    if v.len() > 0 {
        let front = v.drop_last();
        law_coinbase_trades_in_order(front, rx);
        assert(forall|i: int| 0 <= i < front.len() ==> front[i] == v[i]);
        assert(v[v.len() - 1] == v.last());
    }
}

/// Number of changes of a side among some.
pub open spec fn on_side(v: Seq<coinbase::UpdateSeen>, bid: bool) -> nat
    decreases v.len(),
{
    if v.len() == 0 {
        0
    } else {
        on_side(v.drop_last(), bid) + if (v.last().side == "bid"@) == bid {
            1nat
        } else {
            0nat
        }
    }
}

/// The change at a place stands on its own side, after those of its side before it.
pub open spec fn stands(v: Seq<coinbase::UpdateSeen>, d: coinbase::Sides, i: int) -> bool {
    let u = v[i];
    let bid = u.side == "bid"@;
    let l = if bid {
        d.bids
    } else {
        d.asks
    };
    let n = on_side(v.take(i), bid) as int;
    &&& bid || u.side == "offer"@ || u.side == "ask"@
    &&& n < l.len()
    &&& fixed8(u.price_level) matches Ok(p) && l[n].px.0 == p
    &&& fixed8(u.new_quantity) matches Ok(q) && l[n].qty.0 == q
}

/// The changes of Coinbase go each to its own side, in order: bids to the bids, offers to
/// the asks, each at its price with its new quantity.
pub proof fn law_coinbase_changes_by_side(v: Seq<coinbase::UpdateSeen>)
    ensures
        coinbase::sides_of(v) matches Ok(d) ==> {
            &&& d.bids.len() == on_side(v, true)
            &&& d.asks.len() == on_side(v, false)
            &&& d.bids.len() + d.asks.len() == v.len()
            &&& forall|i: int| 0 <= i < v.len() ==> #[trigger] stands(v, d, i)
        },
    decreases v.len(),
{
    if v.len() > 0 {
        let front = v.drop_last();
        law_coinbase_changes_by_side(front);
        if coinbase::sides_of(v) is Ok {
            let d = coinbase::sides_of(v)->Ok_0;
            let f = coinbase::sides_of(front)->Ok_0;
            assert(coinbase::side_next(f, v.last()) == coinbase::sides_of(v));
            assert(v.take(v.len() - 1) == front);
            assert forall|i: int| 0 <= i < v.len() implies #[trigger] stands(v, d, i) by {
                if i < v.len() - 1 {
                    assert(stands(front, f, i));
                    assert(front.take(i) == v.take(i));
                }
            }
        }
    }
}

/// The time of some changes of Coinbase is the latest of theirs.
pub proof fn law_coinbase_time_is_the_latest(v: Seq<coinbase::UpdateSeen>)
    requires
        forall|i: int|
            0 <= i < v.len() ==> (stamp_ms((#[trigger] v[i]).event_time) matches Some(ms) ==> 0
                <= ms <= u64::MAX),
    ensures
        coinbase::sides_of(v) matches Ok(d) ==> {
            &&& forall|i: int|
                0 <= i < v.len() ==> (stamp_ms((#[trigger] v[i]).event_time) matches Some(ms)
                    && ms <= d.ts)
            &&& v.len() > 0 ==> exists|i: int|
                0 <= i < v.len() && stamp_ms((#[trigger] v[i]).event_time) == Some(d.ts as int)
        },
    decreases v.len(),
{
    if v.len() > 0 {
        let front = v.drop_last();
        assert(forall|i: int| 0 <= i < front.len() ==> front[i] == v[i]);
        law_coinbase_time_is_the_latest(front);
        if coinbase::sides_of(v) is Ok {
            let d = coinbase::sides_of(v)->Ok_0;
            let f = coinbase::sides_of(front)->Ok_0;
            assert(coinbase::side_next(f, v.last()) == coinbase::sides_of(v));
            assert(v[v.len() - 1] == v.last());
            if front.len() > 0 {
                let i = choose|i: int|
                    0 <= i < front.len() && stamp_ms((#[trigger] front[i]).event_time) == Some(
                        f.ts as int,
                    );
                assert(v[i] == front[i]);
            }
        }
    }
}

/// A book message of Coinbase numbers the event that it gives: a snapshot fills the book
/// and changes follow it, each linked to the one before, with the sides and the time of its
/// own changes.
pub proof fn law_coinbase_depth_is_told(
    s: coinbase::CoinbaseState,
    e: coinbase::ItemSeen,
    rx: RxStamp,
)
    requires
        s.counter < u64::MAX,
    ensures
        coinbase::sides_of(e.updates) matches Ok(d) ==> ({
            let p = coinbase::depth_next(s, e, rx);
            &&& p.outcome is Ok
            &&& e.kind == Some("snapshot"@) ==> {
                &&& p.events.len() == 1
                &&& p.events[0] matches EventView::Snapshot(x)
                &&& x.bids == d.bids && x.asks == d.asks && x.exch_ts_ms == Some(d.ts)
                &&& x.last_update_id == s.counter + 1
                &&& x.limit == 0 && !x.rolling && x.rx == rx
                &&& !p.state.awaiting && p.state.counter == s.counter + 1
            }
            &&& e.kind == Some("update"@) && !s.awaiting ==> {
                &&& p.events.len() == 1
                &&& p.events[0] matches EventView::Depth(x)
                &&& x.bids == d.bids && x.asks == d.asks && x.exch_ts_ms == d.ts
                &&& x.first_id == s.counter + 1 && x.last_id == s.counter + 1
                &&& x.prev_last_id == Some(s.counter)
                &&& x.match_ts_ms is None && x.rx == rx
                &&& p.state.counter == s.counter + 1
            }
            &&& (e.kind == Some("update"@) && s.awaiting) || (e.kind != Some("update"@) && e.kind
                != Some("snapshot"@)) ==> p.events.len() == 0 && p.state == s
        }),
        coinbase::sides_of(e.updates) is Err ==> ({
            let p = coinbase::depth_next(s, e, rx);
            p.outcome is Err && p.events.len() == 0 && p.state == s
        }),
{
    reveal_strlit("snapshot");
    reveal_strlit("update");
    assert("snapshot"@.len() != "update"@.len());
}

/// A message of Coinbase is told by its channel: an error is refused, a jump of the number
/// voids the depth, trades come from the market's channel, and from the book's on a line
/// that feeds the book comes the depth.
pub proof fn law_coinbase_messages_by_channel(
    s: coinbase::CoinbaseState,
    env: coinbase::EnvelopeSeen,
    rx: RxStamp,
)
    ensures
        env.kind == Some("error"@) ==> {
            let p = coinbase::message_next(s, env, rx);
            p.outcome is Err && p.events.len() == 0 && p.state == s
        },
        env.kind != Some("error"@) && env.channel == Some("market_trades"@) ==> {
            let p = coinbase::message_next(s, env, rx);
            &&& (p.events, p.outcome) == coinbase::market_next(env.events, rx)
            &&& p.state.counter == s.counter
            &&& env.sequence_num matches Some(n) ==> p.state.last_seq == Some(n)
            &&& env.sequence_num is None ==> p.state == s
            &&& p.state.awaiting <==> s.awaiting || (env.sequence_num is Some && s.last_seq is Some
                && env.sequence_num->0 != s.last_seq->0 + 1)
        },
        env.kind != Some("error"@) && env.channel != Some("market_trades"@) && !(env.channel
            == Some("l2_data"@) && s.depth) ==> {
            let p = coinbase::message_next(s, env, rx);
            p.outcome is Ok && p.events.len() == 0
        },
        env.kind != Some("error"@) && env.channel == Some("l2_data"@) && s.depth ==> ({
            let t = coinbase::CoinbaseState {
                last_seq: if env.sequence_num is Some {
                    env.sequence_num
                } else {
                    s.last_seq
                },
                awaiting: s.awaiting || (env.sequence_num is Some && s.last_seq is Some
                    && env.sequence_num->0 != s.last_seq->0 + 1),
                resync: s.resync || (env.sequence_num is Some && s.last_seq is Some
                    && env.sequence_num->0 != s.last_seq->0 + 1),
                ..s
            };
            coinbase::message_next(s, env, rx) == coinbase::depths_next(t, env.events, rx)
        }),
{
    reveal_strlit("market_trades");
    reveal_strlit("l2_data");
    assert("market_trades"@.len() != "l2_data"@.len());
    if env.kind != Some("error"@) && env.channel == Some("l2_data"@) && s.depth {
        let t = coinbase::CoinbaseState {
            last_seq: if env.sequence_num is Some {
                env.sequence_num
            } else {
                s.last_seq
            },
            awaiting: s.awaiting || (env.sequence_num is Some && s.last_seq is Some
                && env.sequence_num->0 != s.last_seq->0 + 1),
            resync: s.resync || (env.sequence_num is Some && s.last_seq is Some
                && env.sequence_num->0 != s.last_seq->0 + 1),
            ..s
        };
        assert(coinbase::sequence_next(s, env.sequence_num) == t);
    }
}

/// A trade of Bybit tells the taker's side; where it met a hidden order, none of its
/// quantity was in the book. Its id is the number told, and it is never sent before it
/// took place.
pub proof fn law_bybit_trade_is_told(ts: Option<u64>, t: bybit::TradeSeen, rx: RxStamp)
    ensures
        bybit::trade_event(ts, t, rx) is Ok <==> fixed8(t.v) is Ok && fixed8(t.p) is Ok && (t.side
            == "Buy"@ || t.side == "Sell"@),
        bybit::trade_event(ts, t, rx) matches Ok(e) ==> {
            &&& e matches EventView::Trade(a)
            &&& a.aggressor == Aggressor::Buy <==> t.side == "Buy"@
            &&& a.aggressor == Aggressor::Sell <==> t.side == "Sell"@
            &&& fixed8(t.p) matches Ok(p) && a.px.0 == p
            &&& fixed8(t.v) matches Ok(q) && a.qty.0 == q
            &&& a.qty_normal matches Some(n) && n.0 == (if t.rpi {
                0
            } else {
                a.qty.0
            })
            &&& unsigned(t.i) matches Some(id) ==> a.agg_id == id
            &&& a.first_trade_id == a.agg_id && a.last_trade_id == a.agg_id
            &&& a.trade_ts_ms == t.t
            &&& a.exch_ts_ms >= t.t && (ts matches Some(x) ==> a.exch_ts_ms >= x)
            &&& a.exch_ts_ms == t.t || ts == Some(a.exch_ts_ms)
            &&& a.rx == rx
        },
{
    reveal_strlit("Buy");
    reveal_strlit("Sell");
    assert("Buy"@.len() != "Sell"@.len());
}

/// The trades of a message of Bybit are told one by one, in order, up to the first that is
/// refused, whose error is the answer.
pub proof fn law_bybit_trades_in_order(ts: Option<u64>, v: Seq<bybit::TradeSeen>, rx: RxStamp)
    ensures
        ({
            let (ev, r) = bybit::trades_next(ts, v, rx);
            &&& ev.len() <= v.len()
            &&& forall|i: int|
                0 <= i < ev.len() ==> (bybit::trade_event(ts, v[i], rx) matches Ok(e) && e
                    == #[trigger] ev[i])
            &&& r is Ok ==> ev.len() == v.len()
            &&& r matches Err(m) ==> ev.len() < v.len() && bybit::trade_event(
                ts,
                v[ev.len() as int],
                rx,
            ) == Err::<EventView, Seq<char>>(m)
        }),
    decreases v.len(),
{
    if v.len() > 0 {
        let front = v.drop_last();
        law_bybit_trades_in_order(ts, front, rx);
        assert(forall|i: int| 0 <= i < front.len() ==> front[i] == v[i]);
        assert(v[v.len() - 1] == v.last());
    }
}

/// A book message of Bybit: `b` are bids and `a` are asks. A snapshot is the whole of what
/// the venue shows; a change is linked to the id before its own. An id that goes back
/// starts a new count.
pub proof fn law_bybit_book_is_told(
    s: bybit::BybitState,
    env: bybit::EnvelopeSeen,
    b: bybit::BookSeen,
    rx: RxStamp,
)
    ensures
        quote::levels_of(b.b) is Ok && quote::levels_of(b.a) is Ok ==> ({
            let p = bybit::book_next(s, env, b, rx);
            &&& env.kind == Some("snapshot"@) || env.kind == Some("delta"@) <==> p.outcome is Ok
            &&& p.outcome is Err ==> p.state == s && p.events.len() == 0
            &&& p.outcome is Ok ==> p.events.len() == 1 && p.state.last_u == b.u
            &&& p.outcome is Ok && b.u >= s.last_u ==> p.state.epoch == s.epoch
            &&& p.outcome is Ok && b.u < s.last_u && s.epoch < u64::MAX ==> p.state.epoch
                == s.epoch + 1
            &&& env.kind == Some("snapshot"@) ==> {
                &&& p.events[0] matches EventView::Snapshot(x)
                &&& x.bids == quote::levels_of(b.b)->Ok_0 && x.asks == quote::levels_of(b.a)->Ok_0
                &&& x.limit == 1000 && x.rolling && x.rx == rx
                &&& env.cts is Some ==> x.exch_ts_ms == env.cts
                &&& env.cts is None && env.ts is Some ==> x.exch_ts_ms == env.ts
                &&& b.u < 0x1000_0000_0000 && p.state.epoch == 0 ==> x.last_update_id == b.u
            }
            &&& env.kind == Some("delta"@) ==> {
                &&& p.events[0] matches EventView::Depth(x)
                &&& x.bids == quote::levels_of(b.b)->Ok_0 && x.asks == quote::levels_of(b.a)->Ok_0
                &&& x.first_id == x.last_id && x.rx == rx
                &&& x.last_id > 0 ==> x.prev_last_id == Some((x.last_id - 1) as u64)
                &&& env.ts matches Some(t) ==> x.exch_ts_ms == t
                &&& x.match_ts_ms == env.cts
                &&& b.u < 0x1000_0000_0000 && p.state.epoch == 0 ==> x.last_id == b.u
            }
        }),
        quote::levels_of(b.b) is Err || quote::levels_of(b.a) is Err ==> ({
            let p = bybit::book_next(s, env, b, rx);
            p.outcome is Err && p.events.len() == 0 && p.state == s
        }),
{
    reveal_strlit("snapshot");
    reveal_strlit("delta");
    assert("snapshot"@.len() != "delta"@.len());
}

/// A message of Bybit is told by its topic, unless it answers a request, which is refused
/// exactly where it says that it failed.
pub proof fn law_bybit_messages_by_topic(
    s: bybit::BybitState,
    env: bybit::EnvelopeSeen,
    rx: RxStamp,
)
    ensures
        env.op is Some ==> {
            let p = bybit::message_next(s, env, rx);
            &&& p.state == s && p.events.len() == 0
            &&& p.outcome is Err <==> env.success == Some(false)
        },
        env.op is None ==> (env.topic matches Some(t) ==> (env.data matches Some(d) ==> {
            let p = bybit::message_next(s, env, rx);
            &&& starts(t, "orderbook."@) ==> (bybit::book_of(d) matches Ok(b) ==> p
                == bybit::book_next(s, env, b, rx))
            &&& !starts(t, "orderbook."@) && starts(t, "publicTrade."@) ==> (json_array(
                d,
            ) matches Ok(items) ==> (bybit::trades_of(items) matches Ok(v) ==> p.state == s && (
            p.events,
            p.outcome,
            ) == bybit::trades_next(env.ts, v, rx)))
            &&& !starts(t, "orderbook."@) && !starts(t, "publicTrade."@) ==> p.state == s
                && p.events.len() == 0 && p.outcome is Ok
        })),
        env.op is None && (env.topic is None || env.data is None) ==> {
            let p = bybit::message_next(s, env, rx);
            p.state == s && p.events.len() == 0 && p.outcome is Ok
        },
{
}

/// A size of OKX is counted in contracts: times the contract's own size it is the quantity,
/// exactly, or it is refused.
pub proof fn law_okx_sizes_are_contracts(contract: Qty, sz: Seq<char>)
    ensures
        fixed8(sz) is Err ==> okx::sized(contract, sz) is Err,
        fixed8(sz) matches Ok(n) ==> {
            &&& okx::sized(contract, sz) matches Ok(q) ==> q.0 * SCALE == n * contract.0
            &&& okx::sized(contract, sz) is Ok <==> exists|q: int|
                i64::MIN <= q <= i64::MAX && #[trigger] (q * SCALE) == n * contract.0
        },
{
    if fixed8(sz) is Ok {
        let n = fixed8(sz)->Ok_0;
        let prod = n * contract.0;
        let d = SCALE as int;
        assert(prod == d * (prod / d) + prod % d) by (nonlinear_arith)
            requires
                d > 0,
        ;
        if contract.0 == SCALE {
            assert(n * SCALE == n * contract.0);
        } else if okx::sized(contract, sz) is Ok {
            assert((prod / d) * SCALE == n * contract.0) by (nonlinear_arith)
                requires
                    prod == d * (prod / d) + prod % d,
                    prod % d == 0,
                    d == SCALE as int,
                    prod == n * contract.0,
            ;
        } else {
            assert forall|q: int| #[trigger] (q * SCALE) == n * contract.0 implies !(i64::MIN <= q
                <= i64::MAX) by {
                assert(prod % d == 0 && prod / d == q) by (nonlinear_arith)
                    requires
                        prod == q * d,
                        d == 1_0000_0000,
                ;
            }
        }
    }
}

/// The levels of a side of OKX are those told, in order, each at its price with the quantity
/// of its contracts.
pub proof fn law_okx_levels_in_order(contract: Qty, v: Seq<(Seq<char>, Seq<char>)>)
    ensures
        okx::levels_of(contract, v) matches Ok(l) ==> {
            &&& l.len() == v.len()
            &&& forall|i: int|
                0 <= i < l.len() ==> {
                    &&& fixed8(v[i].0) matches Ok(p) && (#[trigger] l[i]).px.0 == p
                    &&& okx::sized(contract, v[i].1) matches Ok(q) && l[i].qty == q
                }
        },
        okx::levels_of(contract, v) is Ok <==> forall|i: int|
            0 <= i < v.len() ==> fixed8((#[trigger] v[i]).0) is Ok && okx::sized(
                contract,
                v[i].1,
            ) is Ok,
    decreases v.len(),
{
    if v.len() > 0 {
        let front = v.drop_last();
        law_okx_levels_in_order(contract, front);
        assert(forall|i: int| 0 <= i < front.len() ==> front[i] == v[i]);
        assert(v[v.len() - 1] == v.last());
    }
}

/// A book message of OKX: its first message is all that the venue shows; another follows
/// the sequence number it names as the one before.
pub proof fn law_okx_book_is_told(contract: Qty, snapshot: bool, b: okx::BookSeen, rx: RxStamp)
    ensures
        okx::book_event(contract, snapshot, b, rx) is Ok <==> unsigned(b.ts) is Some && b.seq_id
            >= 0 && okx::levels_of(contract, b.bids) is Ok && okx::levels_of(contract, b.asks)
            is Ok && (snapshot || b.prev_seq_id >= 0),
        okx::book_event(contract, snapshot, b, rx) matches Ok(e) ==> {
            &&& snapshot ==> {
                &&& e matches EventView::Snapshot(x)
                &&& x.bids == okx::levels_of(contract, b.bids)->Ok_0
                &&& x.asks == okx::levels_of(contract, b.asks)->Ok_0
                &&& x.last_update_id == b.seq_id && x.exch_ts_ms == unsigned(b.ts)
                &&& x.limit == 400 && x.rolling && x.rx == rx
            }
            &&& !snapshot ==> {
                &&& e matches EventView::Depth(x)
                &&& x.bids == okx::levels_of(contract, b.bids)->Ok_0
                &&& x.asks == okx::levels_of(contract, b.asks)->Ok_0
                &&& x.first_id == b.prev_seq_id + 1 && x.last_id == b.seq_id
                &&& x.prev_last_id matches Some(p) && p == b.prev_seq_id
                &&& Some(x.exch_ts_ms) == unsigned(b.ts)
                &&& x.match_ts_ms is None && x.rx == rx
            }
        },
{
}

/// The books of a message of OKX are told one by one, in order, up to the first that is
/// refused, whose error is the answer.
pub proof fn law_okx_books_in_order(
    contract: Qty,
    snapshot: bool,
    v: Seq<okx::BookSeen>,
    rx: RxStamp,
)
    ensures
        ({
            let (ev, r) = okx::books_next(contract, snapshot, v, rx);
            &&& ev.len() <= v.len()
            &&& forall|i: int|
                0 <= i < ev.len() ==> (okx::book_event(contract, snapshot, v[i], rx) matches Ok(e)
                    && e == #[trigger] ev[i])
            &&& r is Ok ==> ev.len() == v.len()
            &&& r matches Err(m) ==> ev.len() < v.len() && okx::book_event(
                contract,
                snapshot,
                v[ev.len() as int],
                rx,
            ) == Err::<EventView, Seq<char>>(m)
        }),
    decreases v.len(),
{
    if v.len() > 0 {
        let front = v.drop_last();
        law_okx_books_in_order(contract, snapshot, front, rx);
        assert(forall|i: int| 0 <= i < front.len() ==> front[i] == v[i]);
        assert(v[v.len() - 1] == v.last());
    }
}

/// A trade of OKX tells the taker's side, its quantity in contracts and how many fills it
/// stands for, at least one.
pub proof fn law_okx_trade_is_told(contract: Qty, t: okx::TradeSeen, rx: RxStamp)
    ensures
        okx::trade_event(contract, t, rx) is Ok <==> unsigned(t.trade_id) is Some && unsigned(t.ts)
            is Some && (t.count matches Some(c) ==> unsigned(c) is Some) && fixed8(t.px) is Ok
            && okx::sized(contract, t.sz) is Ok && (t.side == "buy"@ || t.side == "sell"@),
        okx::trade_event(contract, t, rx) matches Ok(e) ==> {
            &&& e matches EventView::Trade(a)
            &&& a.aggressor == Aggressor::Buy <==> t.side == "buy"@
            &&& a.aggressor == Aggressor::Sell <==> t.side == "sell"@
            &&& fixed8(t.px) matches Ok(p) && a.px.0 == p
            &&& okx::sized(contract, t.sz) matches Ok(q) && a.qty == q
            &&& a.qty_normal is None
            &&& Some(a.agg_id) == unsigned(t.trade_id) && a.first_trade_id == a.agg_id
            &&& t.count is None ==> a.last_trade_id == a.agg_id
            &&& t.count matches Some(c) ==> (unsigned(c) matches Some(n) && {
                &&& n <= 1 ==> a.last_trade_id == a.agg_id
                &&& n >= 1 && a.agg_id + n - 1 <= u64::MAX ==> a.last_trade_id - a.first_trade_id
                    + 1 == n
            })
            &&& Some(a.trade_ts_ms) == unsigned(t.ts) && Some(a.exch_ts_ms) == unsigned(t.ts)
            &&& a.rx == rx
        },
{
    reveal_strlit("buy");
    reveal_strlit("sell");
    assert("buy"@.len() != "sell"@.len());
}

/// The trades of a message of OKX are told one by one, in order, up to the first that is
/// refused, whose error is the answer.
pub proof fn law_okx_trades_in_order(contract: Qty, v: Seq<okx::TradeSeen>, rx: RxStamp)
    ensures
        ({
            let (ev, r) = okx::trades_next(contract, v, rx);
            &&& ev.len() <= v.len()
            &&& forall|i: int|
                0 <= i < ev.len() ==> (okx::trade_event(contract, v[i], rx) matches Ok(e) && e
                    == #[trigger] ev[i])
            &&& r is Ok ==> ev.len() == v.len()
            &&& r matches Err(m) ==> ev.len() < v.len() && okx::trade_event(
                contract,
                v[ev.len() as int],
                rx,
            ) == Err::<EventView, Seq<char>>(m)
        }),
    decreases v.len(),
{
    if v.len() > 0 {
        let front = v.drop_last();
        law_okx_trades_in_order(contract, front, rx);
        assert(forall|i: int| 0 <= i < front.len() ==> front[i] == v[i]);
        assert(v[v.len() - 1] == v.last());
    }
}

/// A message of OKX is told by its channel, unless it speaks of a subscription, which is
/// refused exactly where it says that it is an error.
pub proof fn law_okx_messages_by_channel(s: okx::OkxState, env: okx::EnvelopeSeen, rx: RxStamp)
    ensures
        env.event matches Some(e) ==> {
            let (ev, r) = okx::message_next(s, env, rx);
            &&& ev.len() == 0
            &&& r is Err <==> e == "error"@
        },
        env.event is None ==> (env.arg matches Some(arg) ==> (env.data matches Some(d) ==> {
            &&& arg.channel == "books"@ ==> (json_array(d) matches Ok(items) ==> (okx::books_of(
                items,
            ) matches Ok(v) ==> okx::message_next(s, env, rx) == okx::books_next(
                s.contract,
                env.action == Some("snapshot"@),
                v,
                rx,
            )))
            &&& arg.channel == "trades"@ ==> (json_array(d) matches Ok(items) ==> (okx::trades_of(
                items,
            ) matches Ok(v) ==> okx::message_next(s, env, rx) == okx::trades_next(
                s.contract,
                v,
                rx,
            )))
            &&& arg.channel != "books"@ && arg.channel != "trades"@ ==> {
                let (ev, r) = okx::message_next(s, env, rx);
                ev.len() == 0 && r is Ok
            }
        })),
        env.event is None && (env.arg is None || env.data is None) ==> {
            let (ev, r) = okx::message_next(s, env, rx);
            ev.len() == 0 && r is Ok
        },
        okx::frame_next(s, "pong"@, rx).0.len() == 0 && okx::frame_next(s, "pong"@, rx).1 is Ok,
{
    reveal_strlit("books");
    reveal_strlit("trades");
    assert("books"@.len() != "trades"@.len());
}

/// The levels of a side are those told, in order, each at its price with its quantity.
pub proof fn law_levels_in_order(v: Seq<(Seq<char>, Seq<char>)>)
    ensures
        quote::levels_of(v) matches Ok(l) ==> {
            &&& l.len() == v.len()
            &&& forall|i: int|
                0 <= i < l.len() ==> {
                    &&& fixed8(v[i].0) matches Ok(p) && (#[trigger] l[i]).px.0 == p
                    &&& fixed8(v[i].1) matches Ok(q) && l[i].qty.0 == q
                }
        },
        quote::levels_of(v) is Ok <==> forall|i: int|
            0 <= i < v.len() ==> fixed8((#[trigger] v[i]).0) is Ok && fixed8(v[i].1) is Ok,
    decreases v.len(),
{
    if v.len() > 0 {
        let front = v.drop_last();
        law_levels_in_order(front);
        assert(forall|i: int| 0 <= i < front.len() ==> front[i] == v[i]);
        assert(v[v.len() - 1] == v.last());
    }
}

/// An aggregate trade of Binance tells whether the buyer rested: then the taker sold, and
/// else bought. What is told of it is kept, and so is how much of it met the book.
pub proof fn law_binance_trade_is_told(w: binance::AggSeen, rx: RxStamp)
    ensures
        binance::agg_event(w, rx) is Ok <==> fixed8(w.px) is Ok && fixed8(w.qty) is Ok && (
        w.qty_normal matches Some(t) ==> fixed8(t) is Ok),
        binance::agg_event(w, rx) matches Ok(e) ==> {
            &&& e matches EventView::Trade(a)
            &&& a.aggressor == Aggressor::Sell <==> w.buyer_is_maker
            &&& a.aggressor == Aggressor::Buy <==> !w.buyer_is_maker
            &&& fixed8(w.px) matches Ok(p) && a.px.0 == p
            &&& fixed8(w.qty) matches Ok(q) && a.qty.0 == q
            &&& w.qty_normal is None ==> a.qty_normal is None
            &&& w.qty_normal matches Some(t) ==> (fixed8(t) matches Ok(n) && a.qty_normal == Some(
                Qty(n),
            ))
            &&& a.agg_id == w.agg_id && a.first_trade_id == w.first && a.last_trade_id == w.last
            &&& a.trade_ts_ms == w.trade_time && a.exch_ts_ms == w.event_time && a.rx == rx
        },
{
}

/// A change of depth of Binance keeps the ids, times and sides it tells.
pub proof fn law_binance_depth_is_told(w: binance::DepthSeen, rx: RxStamp)
    ensures
        binance::depth_event(w, rx) is Ok <==> quote::levels_of(w.bids) is Ok && quote::levels_of(
            w.asks,
        ) is Ok,
        binance::depth_event(w, rx) matches Ok(e) ==> {
            &&& e matches EventView::Depth(x)
            &&& x.bids == quote::levels_of(w.bids)->Ok_0
            &&& x.asks == quote::levels_of(w.asks)->Ok_0
            &&& x.first_id == w.first && x.last_id == w.last && x.prev_last_id == w.prev
            &&& x.exch_ts_ms == w.event_time && x.match_ts_ms == w.match_time && x.rx == rx
        },
{
}

/// A snapshot of Binance keeps the id, time and sides it tells, and how deep it was asked.
pub proof fn law_binance_snapshot_is_told(w: binance::SnapshotSeen, limit: usize, rx: RxStamp)
    ensures
        binance::snapshot_in(w, limit, rx) is Ok <==> quote::levels_of(w.bids) is Ok
            && quote::levels_of(w.asks) is Ok,
        binance::snapshot_in(w, limit, rx) matches Ok(x) ==> {
            &&& x.bids == quote::levels_of(w.bids)->Ok_0
            &&& x.asks == quote::levels_of(w.asks)->Ok_0
            &&& x.last_update_id == w.last_update_id && x.exch_ts_ms == w.event_time
            &&& x.limit == limit && !x.rolling && x.rx == rx
        },
{
}

/// A frame of Binance is told by its stream: depth, aggregate trades, or nothing.
pub proof fn law_binance_frames_by_stream(text: Seq<char>, rx: RxStamp)
    ensures
        binance::envelope_of(text) is Err ==> binance::frame_event(text, rx) is Err,
        binance::envelope_of(text) matches Ok(env) ==> {
            &&& within(env.stream, "@depth"@) ==> (binance::depth_of(env.data) matches Ok(w)
                ==> binance::frame_event(text, rx) == binance::depth_event(w, rx))
            &&& within(env.stream, "@depth"@) && binance::depth_of(env.data) is Err
                ==> binance::frame_event(text, rx) is Err
            &&& !within(env.stream, "@depth"@) && ends(env.stream, "@aggTrade"@) ==> (
            binance::agg_of(env.data) matches Ok(w) ==> binance::frame_event(text, rx)
                == binance::agg_event(w, rx))
            &&& !within(env.stream, "@depth"@) && ends(env.stream, "@aggTrade"@)
                && binance::agg_of(env.data) is Err ==> binance::frame_event(text, rx) is Err
            &&& !within(env.stream, "@depth"@) && !ends(env.stream, "@aggTrade"@)
                ==> binance::frame_event(text, rx) == Ok::<EventView, binance::WireFault>(
                EventView::Ignored,
            )
        },
{
}

/// Only the best levels stay in the mirror of Kraken: the highest bids and the lowest asks,
/// as many as the venue keeps, with their quantities; each of the others is cut, as a level
/// with no quantity.
pub proof fn law_kraken_keeps_the_best(m: Seq<(i64, i64)>, n: nat)
    requires
        sorted(m),
    ensures
        ({
            let b = kraken::top_bids(m, n);
            let a = kraken::top_asks(m, n);
            let cb = kraken::cut_bids(m, n);
            let ca = kraken::cut_asks(m, n);
            &&& b.len() == a.len() == (if m.len() > n {
                n
            } else {
                m.len()
            })
            &&& b.len() + cb.len() == m.len() && a.len() + ca.len() == m.len()
            &&& forall|i: int| 0 <= i < b.len() ==> m.contains(#[trigger] b[i])
            &&& forall|i: int| 0 <= i < a.len() ==> m.contains(#[trigger] a[i])
            &&& forall|i: int, j: int|
                #![trigger b[i], cb[j]]
                0 <= i < b.len() && 0 <= j < cb.len() ==> b[i].0 > cb[j].0
            &&& forall|i: int, j: int|
                #![trigger a[i], ca[j]]
                0 <= i < a.len() && 0 <= j < ca.len() ==> a[i].0 < ca[j].0
            &&& forall|j: int| 0 <= j < cb.len() ==> (#[trigger] cb[j]).1 == 0
            &&& forall|j: int| 0 <= j < ca.len() ==> (#[trigger] ca[j]).1 == 0
            &&& forall|i: int|
                0 <= i < m.len() ==> b.contains(#[trigger] m[i]) || cb.contains((m[i].0, 0i64))
            &&& forall|i: int|
                0 <= i < m.len() ==> a.contains(#[trigger] m[i]) || ca.contains((m[i].0, 0i64))
        }),
{
    let b = kraken::top_bids(m, n);
    let a = kraken::top_asks(m, n);
    let cb = kraken::cut_bids(m, n);
    let ca = kraken::cut_asks(m, n);
    assert forall|i: int, j: int| #![trigger m[i], m[j]] 0 <= i < j < m.len() implies m[i].0
        < m[j].0 by {
        assert(key_lt(m[i].0, m[j].0));
    }
    let k = if m.len() > n {
        m.len() - n
    } else {
        0int
    };
    assert forall|i: int| 0 <= i < b.len() implies m.contains(#[trigger] b[i]) by {
        assert(b[i] == m[i + k]);
    }
    assert forall|i: int| 0 <= i < a.len() implies m.contains(#[trigger] a[i]) by {
        assert(a[i] == m[i]);
    }
    assert forall|i: int, j: int|
        #![trigger b[i], cb[j]]
        0 <= i < b.len() && 0 <= j < cb.len() implies b[i].0 > cb[j].0 by {
        assert(b[i] == m[i + k] && cb[j].0 == m[j].0);
    }
    assert forall|i: int, j: int|
        #![trigger a[i], ca[j]]
        0 <= i < a.len() && 0 <= j < ca.len() implies a[i].0 < ca[j].0 by {
        assert(a[i] == m[i] && ca[j].0 == m[m.len() - 1 - j].0);
    }
    assert forall|i: int| 0 <= i < m.len() implies b.contains(#[trigger] m[i]) || cb.contains(
        (m[i].0, 0i64),
    ) by {
        if i >= k {
            assert(b[i - k] == m[i]);
        } else {
            assert(cb[i] == (m[i].0, 0i64));
        }
    }
    assert forall|i: int| 0 <= i < m.len() implies a.contains(#[trigger] m[i]) || ca.contains(
        (m[i].0, 0i64),
    ) by {
        if i < a.len() {
            assert(a[i] == m[i]);
        } else {
            assert(ca[m.len() - 1 - i] == (m[i].0, 0i64));
        }
    }
}

/// The checksum of Kraken reads the ten best asks from the lowest up, and then the ten best
/// bids from the highest down.
pub proof fn law_kraken_checksum_reads_the_best(bids: Seq<(i64, i64)>, asks: Seq<(i64, i64)>)
    requires
        sorted(bids),
        sorted(asks),
    ensures
        ({
            let t = kraken::best_ten(bids, asks);
            let a = if asks.len() > 10 {
                10
            } else {
                asks.len() as int
            };
            let b = if bids.len() > 10 {
                10
            } else {
                bids.len() as int
            };
            &&& t.len() == a + b
            &&& forall|i: int| 0 <= i < a ==> asks.contains(#[trigger] t[i])
            &&& forall|i: int| a <= i < a + b ==> bids.contains(#[trigger] t[i])
            &&& forall|i: int, j: int|
                #![trigger t[i], t[j]]
                0 <= i < j < a ==> t[i].0 < t[j].0
            &&& forall|i: int, j: int|
                #![trigger t[i], t[j]]
                a <= i < j < a + b ==> t[i].0 > t[j].0
            &&& forall|i: int, j: int|
                #![trigger t[i], asks[j]]
                0 <= i < a && a <= j < asks.len() ==> t[i].0 < asks[j].0
            &&& forall|i: int, j: int|
                #![trigger t[i], bids[j]]
                a <= i < a + b && 0 <= j < bids.len() - b ==> t[i].0 > bids[j].0
        }),
{
    let t = kraken::best_ten(bids, asks);
    let a = if asks.len() > 10 {
        10
    } else {
        asks.len() as int
    };
    let b = if bids.len() > 10 {
        10
    } else {
        bids.len() as int
    };
    assert forall|i: int, j: int| #![trigger asks[i], asks[j]] 0 <= i < j < asks.len() implies
        asks[i].0 < asks[j].0 by {
        assert(key_lt(asks[i].0, asks[j].0));
    }
    assert forall|i: int, j: int| #![trigger bids[i], bids[j]] 0 <= i < j < bids.len() implies
        bids[i].0 < bids[j].0 by {
        assert(key_lt(bids[i].0, bids[j].0));
    }
    assert forall|i: int| 0 <= i < a implies asks.contains(#[trigger] t[i]) && t[i] == asks[i] by {
        assert(t[i] == asks[i]);
    }
    assert forall|i: int| a <= i < a + b implies bids.contains(#[trigger] t[i]) && t[i]
        == bids[bids.len() - 1 - (i - a)] by {
        assert(t[i] == bids[bids.len() - 1 - (i - a)]);
    }
}

/// A value in the digits of its precision writes it without point nor leading zeros: those
/// digits, times what a unit of the precision is worth, are the value.
pub proof fn law_kraken_digits_write_the_value(raw: i64, div: i64)
    requires
        raw > 0,
        div > 0,
    ensures
        kraken::digits_of(raw, div) is Some <==> raw as int % div as int == 0,
        kraken::digits_of(raw, div) matches Some(t) ==> {
            &&& all_digits(t) && t.len() > 0
            &&& value(t) * div == raw
            &&& t[0] != '0'
        },
        kraken::digits_of(0, div) == Some(Seq::<char>::empty()),
{
    assert(0int % div as int == 0) by (nonlinear_arith)
        requires
            div > 0,
    ;
    if raw as int % div as int == 0 {
        let q = raw as int / div as int;
        assert(q > 0 && q * div == raw) by (nonlinear_arith)
            requires
                raw as int % div as int == 0,
                q == raw as int / div as int,
                raw > 0,
                div > 0,
        ;
        lemma_dec_value(q as nat);
        law_integers_round_trip(q as nat, 0);
        lemma_first(q as nat);
    }
}

proof fn lemma_first(n: nat)
    requires
        n > 0,
    ensures
        dec(n).len() > 0 && dec(n)[0] != '0',
    decreases n,
{
    if n >= 10 {
        lemma_first(n / 10);
    }
}

/// A precision of some decimals leaves, of the eight of a raw value, the rest.
pub proof fn law_kraken_divisor_completes_the_scale(d: u32)
    ensures
        d <= 8 ==> kraken::divisor_of(d) * pow10(d as nat) == SCALE,
        d > 8 ==> kraken::divisor_of(d) == 0,
{
    reveal_with_fuel(pow10, 9);
    assert(pow10(0) == 1 && pow10(1) == 10 && pow10(2) == 100 && pow10(3) == 1000 && pow10(4) == 1_0000);
    assert(pow10(5) == 10_0000 && pow10(6) == 100_0000 && pow10(7) == 1000_0000 && pow10(8) == SCALE);
    if d == 0 {
        assert(pow10(d as nat) == 1 && kraken::divisor_of(d) == 100000000);
        assert(kraken::divisor_of(d) * pow10(d as nat) == SCALE) by (nonlinear_arith)
            requires
                pow10(d as nat) == 1,
                kraken::divisor_of(d) == 100000000,
        ;
    }
    if d == 1 {
        assert(pow10(d as nat) == 10 && kraken::divisor_of(d) == 10000000);
        assert(kraken::divisor_of(d) * pow10(d as nat) == SCALE) by (nonlinear_arith)
            requires
                pow10(d as nat) == 10,
                kraken::divisor_of(d) == 10000000,
        ;
    }
    if d == 2 {
        assert(pow10(d as nat) == 100 && kraken::divisor_of(d) == 1000000);
        assert(kraken::divisor_of(d) * pow10(d as nat) == SCALE) by (nonlinear_arith)
            requires
                pow10(d as nat) == 100,
                kraken::divisor_of(d) == 1000000,
        ;
    }
    if d == 3 {
        assert(pow10(d as nat) == 1000 && kraken::divisor_of(d) == 100000);
        assert(kraken::divisor_of(d) * pow10(d as nat) == SCALE) by (nonlinear_arith)
            requires
                pow10(d as nat) == 1000,
                kraken::divisor_of(d) == 100000,
        ;
    }
    if d == 4 {
        assert(pow10(d as nat) == 10000 && kraken::divisor_of(d) == 10000);
        assert(kraken::divisor_of(d) * pow10(d as nat) == SCALE) by (nonlinear_arith)
            requires
                pow10(d as nat) == 10000,
                kraken::divisor_of(d) == 10000,
        ;
    }
    if d == 5 {
        assert(pow10(d as nat) == 100000 && kraken::divisor_of(d) == 1000);
        assert(kraken::divisor_of(d) * pow10(d as nat) == SCALE) by (nonlinear_arith)
            requires
                pow10(d as nat) == 100000,
                kraken::divisor_of(d) == 1000,
        ;
    }
    if d == 6 {
        assert(pow10(d as nat) == 1000000 && kraken::divisor_of(d) == 100);
        assert(kraken::divisor_of(d) * pow10(d as nat) == SCALE) by (nonlinear_arith)
            requires
                pow10(d as nat) == 1000000,
                kraken::divisor_of(d) == 100,
        ;
    }
    if d == 7 {
        assert(pow10(d as nat) == 10000000 && kraken::divisor_of(d) == 10);
        assert(kraken::divisor_of(d) * pow10(d as nat) == SCALE) by (nonlinear_arith)
            requires
                pow10(d as nat) == 10000000,
                kraken::divisor_of(d) == 10,
        ;
    }
    if d == 8 {
        assert(pow10(d as nat) == 100000000 && kraken::divisor_of(d) == 1);
        assert(kraken::divisor_of(d) * pow10(d as nat) == SCALE) by (nonlinear_arith)
            requires
                pow10(d as nat) == 100000000,
                kraken::divisor_of(d) == 1,
        ;
    }
}

/// The raw levels of a side of Kraken are those told, in order, each at its price with its
/// quantity.
pub proof fn law_kraken_levels_in_order(v: Seq<kraken::QuoteSeen>)
    ensures
        kraken::raw_levels(v) matches Ok(l) ==> {
            &&& l.len() == v.len()
            &&& forall|i: int|
                0 <= i < l.len() ==> {
                    &&& number8(v[i].price) matches Ok(p) && (#[trigger] l[i]).0 == p
                    &&& number8(v[i].qty) matches Ok(q) && l[i].1 == q
                }
        },
        kraken::raw_levels(v) is Ok <==> forall|i: int|
            0 <= i < v.len() ==> number8((#[trigger] v[i]).price) is Ok && number8(v[i].qty)
                is Ok,
    decreases v.len(),
{
    if v.len() > 0 {
        let front = v.drop_last();
        law_kraken_levels_in_order(front);
        assert(forall|i: int| 0 <= i < front.len() ==> front[i] == v[i]);
        assert(v[v.len() - 1] == v.last());
    }
}

/// A checked book message of Kraken gives its event: a snapshot is all of the mirror, bids
/// from the highest, and a change is what was told and what was cut, linked to the one
/// before.
pub proof fn law_kraken_book_is_told(
    s: kraken::KrakenState,
    t: kraken::KrakenState,
    bids: Seq<(i64, i64)>,
    asks: Seq<(i64, i64)>,
    ts: u64,
    rx: RxStamp,
)
    requires
        t.counter > 0,
    ensures
        kraken::book_event(s, t, true, bids, asks, ts, rx) matches EventView::Snapshot(x) && {
            &&& x.last_update_id == t.counter && x.limit == s.n && x.rolling
            &&& x.exch_ts_ms == Some(ts) && x.rx == rx
            &&& x.bids.len() == t.bids.len() && x.asks.len() == t.asks.len()
            &&& forall|i: int|
                0 <= i < x.bids.len() ==> {
                    let l = #[trigger] x.bids[i];
                    (l.px.0, l.qty.0) == t.bids[t.bids.len() - 1 - i]
                }
            &&& forall|i: int|
                0 <= i < x.asks.len() ==> {
                    let l = #[trigger] x.asks[i];
                    (l.px.0, l.qty.0) == t.asks[i]
                }
        },
        kraken::book_event(s, t, false, bids, asks, ts, rx) matches EventView::Depth(x) && {
            &&& x.first_id == t.counter && x.last_id == t.counter
            &&& x.prev_last_id == Some((t.counter - 1) as u64)
            &&& x.exch_ts_ms == ts && x.match_ts_ms is None && x.rx == rx
            &&& x.bids.len() >= bids.len() && x.asks.len() >= asks.len()
            &&& forall|i: int|
                0 <= i < bids.len() ==> {
                    let l = #[trigger] x.bids[i];
                    (l.px.0, l.qty.0) == bids[i]
                }
            &&& forall|i: int|
                0 <= i < asks.len() ==> {
                    let l = #[trigger] x.asks[i];
                    (l.px.0, l.qty.0) == asks[i]
                }
            &&& forall|i: int| bids.len() <= i < x.bids.len() ==> (#[trigger] x.bids[i]).qty.0 == 0
            &&& forall|i: int| asks.len() <= i < x.asks.len() ==> (#[trigger] x.asks[i]).qty.0 == 0
        },
{
}

} // verus!

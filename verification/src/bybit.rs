//! Bybit v5 connector: protocol and parsing into normalised events.
//!
//! The book brings a snapshot and then deltas with a contiguous global id `u`; an id
//! that goes back means that the service restarted, which opens a new epoch of ids.
//! Trade ids are numeric in spot and not in linear markets.

use crate::event::{
    AggTrade, Aggressor, DepthDiff, DepthSnapshot, DiffView, EventView, MarketEvent, RxStamp,
    SnapView,
};
use crate::fixed::{fixed8, Px, Qty};
use crate::json::{
    bool_or_false_in, find_given, get_bool_or_false, get_list, get_opt_bool, get_opt_str,
    get_opt_u64, get_str, get_u64, given_of, json_array, json_quoted, list_in, opt_bool_in,
    opt_str_in, opt_u64_in, pairs_of, quoted, read_array, read_pairs, seen, str_in, u64_in,
};
use crate::net::{events_of, said, Parsed, Protocol};
use crate::num::clamp_u64;
use crate::quote::{levels_of, read_levels, refusal, refused};
use crate::record::{read_record, record_of};
use crate::text::{debug_text, debugged, parse_u64, same_text, starts, starts_with, unsigned};
use vstd::prelude::*;
use vstd::string::StringExecFns;
use vstd::utf8::encode_utf8;

verus! {

/// WebSocket of spot markets.
pub const WS_SPOT: &'static str = "wss://stream.bybit.com/v5/public/spot";

/// WebSocket of linear perpetuals (USDT).
pub const WS_LINEAR: &'static str = "wss://stream.bybit.com/v5/public/linear";

/// Subscribed depth.
pub const DEPTH: usize = 1000;

/// One step of the hash: exclusive or with the byte, then times the prime, in 64 bits.
pub open spec fn fnv_step(h: u64, b: u8) -> u64 {
    (((h ^ (b as u64)) * 0x0000_0100_0000_01b3) % 0x1_0000_0000_0000_0000) as u64
}

/// FNV-1a of some bytes.
pub open spec fn fnv(b: Seq<u8>) -> u64
    decreases b.len(),
{
    if b.len() == 0 {
        0xcbf2_9ce4_8422_2325
    } else {
        fnv_step(fnv(b.drop_last()), b.last())
    }
}

/// FNV-1a of 64 bits (trade ids that are not numeric).
pub fn fnv1a64(s: &str) -> (r: u64)
    ensures
        r == fnv(encode_utf8(s@)),
{
    let b = s.as_bytes();
    let mut h: u64 = 0xcbf2_9ce4_8422_2325;
    let mut i: usize = 0;
    assert(b@.take(0) =~= Seq::<u8>::empty());
    while i < b.len()
        invariant
            b@ == encode_utf8(s@),
            i <= b.len(),
            h == fnv(b@.take(i as int)),
        decreases b.len() - i,
    {
        assert(b@.take(i + 1).drop_last() =~= b@.take(i as int));
        let x: u64 = h ^ (b[i] as u64);
        h = x.wrapping_mul(0x0000_0100_0000_01b3);
        i += 1;
    }
    assert(b@.take(i as int) =~= b@);
    h
}

/// The envelope of a message.
pub struct EnvelopeWire {
    /// Topic.
    pub topic: Option<String>,
    /// Snapshot or delta.
    pub kind: Option<String>,
    /// Time of emission, ms.
    pub ts: Option<u64>,
    /// Time of the matching engine, ms.
    pub cts: Option<u64>,
    /// Raw payload.
    pub data: Option<String>,
    /// Operation that is answered.
    pub op: Option<String>,
    /// Outcome of the operation.
    pub success: Option<bool>,
    /// Message of the operation.
    pub ret_msg: Option<String>,
}

/// What a [`EnvelopeWire`] holds.
#[verifier::ext_equal]
pub struct EnvelopeSeen {
    /// Topic.
    pub topic: Option<Seq<char>>,
    /// Snapshot or delta.
    pub kind: Option<Seq<char>>,
    /// Time of emission, ms.
    pub ts: Option<u64>,
    /// Time of the matching engine, ms.
    pub cts: Option<u64>,
    /// Raw payload.
    pub data: Option<Seq<char>>,
    /// Operation that is answered.
    pub op: Option<Seq<char>>,
    /// Outcome of the operation.
    pub success: Option<bool>,
    /// Message of the operation.
    pub ret_msg: Option<Seq<char>>,
}

impl DeepView for EnvelopeWire {
    type V = EnvelopeSeen;

    open spec fn deep_view(&self) -> EnvelopeSeen {
        EnvelopeSeen {
            topic: self.topic.deep_view(),
            kind: self.kind.deep_view(),
            ts: self.ts.deep_view(),
            cts: self.cts.deep_view(),
            data: self.data.deep_view(),
            op: self.op.deep_view(),
            success: self.success.deep_view(),
            ret_msg: self.ret_msg.deep_view(),
        }
    }
}

/// The fields, in order.
pub open spec fn envelope_fields() -> Seq<Seq<char>> {
    seq!["topic"@, "type"@, "ts"@, "cts"@, "data"@, "op"@, "success"@, "ret_msg"@]
}

/// The envelope that a text writes, or why it is refused.
pub open spec fn envelope_of(text: Seq<char>) -> Result<EnvelopeSeen, Seq<char>> {
    match record_of(text, envelope_fields(), 0) {
        Err(e) => Err(e),
        Ok(f) => {
            let topic = opt_str_in(f, "topic"@);
            let kind = opt_str_in(f, "type"@);
            let ts = opt_u64_in(f, "ts"@);
            let cts = opt_u64_in(f, "cts"@);
            let op = opt_str_in(f, "op"@);
            let success = opt_bool_in(f, "success"@);
            let ret_msg = opt_str_in(f, "ret_msg"@);
            if topic is Err {
                Err(topic->Err_0)
            } else if kind is Err {
                Err(kind->Err_0)
            } else if ts is Err {
                Err(ts->Err_0)
            } else if cts is Err {
                Err(cts->Err_0)
            } else if op is Err {
                Err(op->Err_0)
            } else if success is Err {
                Err(success->Err_0)
            } else if ret_msg is Err {
                Err(ret_msg->Err_0)
            } else {
                Ok(
                    EnvelopeSeen {
                        topic: topic->Ok_0,
                        kind: kind->Ok_0,
                        ts: ts->Ok_0,
                        cts: cts->Ok_0,
                        data: given_of(f, "data"@),
                        op: op->Ok_0,
                        success: success->Ok_0,
                        ret_msg: ret_msg->Ok_0,
                    },
                )
            }
        },
    }
}

/// Reads the envelope of a message.
pub fn read_envelope(text: &str) -> (r: Result<EnvelopeWire, String>)
    ensures
        seen(r) == envelope_of(text@),
{
    let fields = ["topic", "type", "ts", "cts", "data", "op", "success", "ret_msg"];
    assert(fields.deep_view() =~= envelope_fields());
    let f = match read_record(text, &fields, 0) {
        Ok(f) => f,
        Err(e) => return Err(e),
    };
    let topic = match get_opt_str(&f, "topic") {
        Ok(v) => v,
        Err(e) => return Err(e),
    };
    let kind = match get_opt_str(&f, "type") {
        Ok(v) => v,
        Err(e) => return Err(e),
    };
    let ts = match get_opt_u64(&f, "ts") {
        Ok(v) => v,
        Err(e) => return Err(e),
    };
    let cts = match get_opt_u64(&f, "cts") {
        Ok(v) => v,
        Err(e) => return Err(e),
    };
    let data = find_given(&f, "data");
    let op = match get_opt_str(&f, "op") {
        Ok(v) => v,
        Err(e) => return Err(e),
    };
    let success = match get_opt_bool(&f, "success") {
        Ok(v) => v,
        Err(e) => return Err(e),
    };
    let ret_msg = match get_opt_str(&f, "ret_msg") {
        Ok(v) => v,
        Err(e) => return Err(e),
    };
    Ok(EnvelopeWire { topic, kind, ts, cts, data, op, success, ret_msg })
}

/// A book message.
pub struct BookWire {
    /// Bids: price and quantity.
    pub b: Vec<(String, String)>,
    /// Asks: price and quantity.
    pub a: Vec<(String, String)>,
    /// Update id.
    pub u: u64,
}

/// What a [`BookWire`] holds.
#[verifier::ext_equal]
pub struct BookSeen {
    /// Bids: price and quantity.
    pub b: Seq<(Seq<char>, Seq<char>)>,
    /// Asks: price and quantity.
    pub a: Seq<(Seq<char>, Seq<char>)>,
    /// Update id.
    pub u: u64,
}

impl DeepView for BookWire {
    type V = BookSeen;

    open spec fn deep_view(&self) -> BookSeen {
        BookSeen {
            b: self.b.deep_view(),
            a: self.a.deep_view(),
            u: self.u.deep_view(),
        }
    }
}

/// The fields, in order.
pub open spec fn book_fields() -> Seq<Seq<char>> {
    seq!["b"@, "a"@, "u"@]
}

/// The book message that a text writes, or why it is refused.
pub open spec fn book_of(text: Seq<char>) -> Result<BookSeen, Seq<char>> {
    match record_of(text, book_fields(), 3) {
        Err(e) => Err(e),
        Ok(f) => {
            let b = match list_in(f, "b"@) {
                Ok(items) => pairs_of(items),
                Err(e) => Err(e),
            };
            let a = match list_in(f, "a"@) {
                Ok(items) => pairs_of(items),
                Err(e) => Err(e),
            };
            let u = u64_in(f, "u"@);
            if b is Err {
                Err(b->Err_0)
            } else if a is Err {
                Err(a->Err_0)
            } else if u is Err {
                Err(u->Err_0)
            } else {
                Ok(BookSeen { b: b->Ok_0, a: a->Ok_0, u: u->Ok_0 })
            }
        },
    }
}

/// Reads a book message.
pub fn read_book(text: &str) -> (r: Result<BookWire, String>)
    ensures
        seen(r) == book_of(text@),
{
    let fields = ["b", "a", "u"];
    assert(fields.deep_view() =~= book_fields());
    let f = match read_record(text, &fields, 3) {
        Ok(f) => f,
        Err(e) => return Err(e),
    };
    let b = match get_list(&f, "b") {
        Ok(items) => match read_pairs(&items) {
            Ok(v) => v,
            Err(e) => return Err(e),
        },
        Err(e) => return Err(e),
    };
    let a = match get_list(&f, "a") {
        Ok(items) => match read_pairs(&items) {
            Ok(v) => v,
            Err(e) => return Err(e),
        },
        Err(e) => return Err(e),
    };
    let u = match get_u64(&f, "u") {
        Ok(v) => v,
        Err(e) => return Err(e),
    };
    Ok(BookWire { b, a, u })
}

/// A trade message.
pub struct TradeWire {
    /// Time, ms.
    pub t: u64,
    /// Side of the aggressor.
    pub side: String,
    /// Quantity.
    pub v: String,
    /// Price.
    pub p: String,
    /// Id, numeric or not.
    pub i: String,
    /// Against orders that the book does not show.
    pub rpi: bool,
}

/// What a [`TradeWire`] holds.
#[verifier::ext_equal]
pub struct TradeSeen {
    /// Time, ms.
    pub t: u64,
    /// Side of the aggressor.
    pub side: Seq<char>,
    /// Quantity.
    pub v: Seq<char>,
    /// Price.
    pub p: Seq<char>,
    /// Id, numeric or not.
    pub i: Seq<char>,
    /// Against orders that the book does not show.
    pub rpi: bool,
}

impl DeepView for TradeWire {
    type V = TradeSeen;

    open spec fn deep_view(&self) -> TradeSeen {
        TradeSeen {
            t: self.t.deep_view(),
            side: self.side.deep_view(),
            v: self.v.deep_view(),
            p: self.p.deep_view(),
            i: self.i.deep_view(),
            rpi: self.rpi.deep_view(),
        }
    }
}

/// The fields, in order.
pub open spec fn trade_fields() -> Seq<Seq<char>> {
    seq!["T"@, "S"@, "v"@, "p"@, "i"@, "RPI"@]
}

/// The trade that a text writes, or why it is refused.
pub open spec fn trade_of(text: Seq<char>) -> Result<TradeSeen, Seq<char>> {
    match record_of(text, trade_fields(), 5) {
        Err(e) => Err(e),
        Ok(f) => {
            let t = u64_in(f, "T"@);
            let side = str_in(f, "S"@);
            let v = str_in(f, "v"@);
            let p = str_in(f, "p"@);
            let i = str_in(f, "i"@);
            let rpi = bool_or_false_in(f, "RPI"@);
            if t is Err {
                Err(t->Err_0)
            } else if side is Err {
                Err(side->Err_0)
            } else if v is Err {
                Err(v->Err_0)
            } else if p is Err {
                Err(p->Err_0)
            } else if i is Err {
                Err(i->Err_0)
            } else if rpi is Err {
                Err(rpi->Err_0)
            } else {
                Ok(
                    TradeSeen {
                        t: t->Ok_0,
                        side: side->Ok_0,
                        v: v->Ok_0,
                        p: p->Ok_0,
                        i: i->Ok_0,
                        rpi: rpi->Ok_0,
                    },
                )
            }
        },
    }
}

/// Reads a trade.
pub fn read_trade(text: &str) -> (r: Result<TradeWire, String>)
    ensures
        seen(r) == trade_of(text@),
{
    let fields = ["T", "S", "v", "p", "i", "RPI"];
    assert(fields.deep_view() =~= trade_fields());
    let f = match read_record(text, &fields, 5) {
        Ok(f) => f,
        Err(e) => return Err(e),
    };
    let t = match get_u64(&f, "T") {
        Ok(v) => v,
        Err(e) => return Err(e),
    };
    let side = match get_str(&f, "S") {
        Ok(v) => v,
        Err(e) => return Err(e),
    };
    let v = match get_str(&f, "v") {
        Ok(v) => v,
        Err(e) => return Err(e),
    };
    let p = match get_str(&f, "p") {
        Ok(v) => v,
        Err(e) => return Err(e),
    };
    let i = match get_str(&f, "i") {
        Ok(v) => v,
        Err(e) => return Err(e),
    };
    let rpi = match get_bool_or_false(&f, "RPI") {
        Ok(v) => v,
        Err(e) => return Err(e),
    };
    Ok(TradeWire { t, side, v, p, i, rpi })
}

/// All the trades, or the message of the first that fails.
pub open spec fn trades_of(items: Seq<Seq<char>>) -> Result<Seq<TradeSeen>, Seq<char>>
    decreases items.len(),
{
    if items.len() == 0 {
        Ok(Seq::empty())
    } else {
        match trades_of(items.drop_last()) {
            Err(e) => Err(e),
            Ok(s) => match trade_of(items.last()) {
                Err(e) => Err(e),
                Ok(x) => Ok(s.push(x)),
            },
        }
    }
}

proof fn lemma_trades_of_stops(items: Seq<Seq<char>>, i: int)
    requires
        0 <= i <= items.len(),
        trades_of(items.take(i)) is Err,
    ensures
        trades_of(items) == trades_of(items.take(i)),
    decreases items.len() - i,
{
    if i < items.len() {
        assert(items.take(i + 1).drop_last() =~= items.take(i));
        lemma_trades_of_stops(items, i + 1);
    } else {
        assert(items.take(i) =~= items);
    }
}

/// Reads them all; the first that fails decides.
pub fn read_trades(items: &Vec<String>) -> (r: Result<Vec<TradeWire>, String>)
    ensures
        seen(r) == trades_of(items.deep_view()),
{
    let ghost d = items.deep_view();
    let mut out: Vec<TradeWire> = Vec::new();
    let mut i: usize = 0;
    assert(d.take(0) =~= Seq::<Seq<char>>::empty());
    assert(out.deep_view() =~= Seq::<TradeSeen>::empty());
    while i < items.len()
        invariant
            i <= items.len(),
            d == items.deep_view(),
            d.len() == items.len(),
            trades_of(d.take(i as int)) == Ok::<Seq<TradeSeen>, Seq<char>>(out.deep_view()),
        decreases items.len() - i,
    {
        proof {
            assert(d.take(i + 1).drop_last() =~= d.take(i as int));
            assert(d.take(i + 1).last() == items[i as int]@);
        }
        match read_trade(items[i].as_str()) {
            Ok(x) => {
                let ghost before = out.deep_view();
                out.push(x);
                assert(out.deep_view() =~= before.push(x.deep_view()));
            },
            Err(e) => {
                proof {
                    lemma_trades_of_stops(d, i + 1);
                }
                return Err(e);
            },
        }
        i += 1;
    }
    assert(d.take(i as int) =~= d);
    Ok(out)
}

/// What a [`BybitProtocol`] holds.
#[verifier::ext_equal]
pub struct BybitState {
    /// Native symbol.
    pub symbol: Seq<char>,
    /// Restarts of the service seen.
    pub epoch: u64,
    /// Last id seen.
    pub last_u: u64,
}

/// Bybit protocol of a symbol on a line.
pub struct BybitProtocol {
    symbol: String,
    epoch: u64,
    last_u: u64,
}

/// The global id of `u` in an epoch: the epoch above bit 44, and `u` below.
pub open spec fn global_id(epoch: u64, u: u64) -> u64 {
    ((epoch % 0x10_0000) * 0x1000_0000_0000 + u % 0x1000_0000_0000) as u64
}

/// The state after an id: one that goes back opens a new epoch.
pub open spec fn id_next(s: BybitState, u: u64) -> BybitState {
    BybitState {
        epoch: if u < s.last_u {
            clamp_u64(s.epoch + 1) as u64
        } else {
            s.epoch
        },
        last_u: u,
        ..s
    }
}

/// What a book message does.
pub open spec fn book_next(s: BybitState, env: EnvelopeSeen, b: BookSeen, rx: RxStamp) -> Parsed<
    BybitState,
> {
    let ts = match env.ts {
        Some(t) => t,
        None => 0,
    };
    let bids = levels_of(b.b);
    let asks = levels_of(b.a);
    let n = id_next(s, b.u);
    let id = global_id(n.epoch, n.last_u);
    if bids is Err {
        Parsed { state: s, events: Seq::empty(), outcome: Err(bids->Err_0) }
    } else if asks is Err {
        Parsed { state: s, events: Seq::empty(), outcome: Err(asks->Err_0) }
    } else if env.kind == Some("snapshot"@) {
        Parsed {
            state: n,
            events: seq![
                EventView::Snapshot(
                    SnapView {
                        last_update_id: id,
                        limit: DEPTH as nat,
                        bids: bids->Ok_0,
                        asks: asks->Ok_0,
                        exch_ts_ms: Some(
                            match env.cts {
                                Some(t) => t,
                                None => ts,
                            },
                        ),
                        rolling: true,
                        rx,
                    },
                ),
            ],
            outcome: Ok(()),
        }
    } else if env.kind == Some("delta"@) {
        Parsed {
            state: n,
            events: seq![
                EventView::Depth(
                    DiffView {
                        first_id: id,
                        last_id: id,
                        prev_last_id: Some(clamp_u64(id - 1) as u64),
                        exch_ts_ms: ts,
                        match_ts_ms: env.cts,
                        bids: bids->Ok_0,
                        asks: asks->Ok_0,
                        rx,
                    },
                ),
            ],
            outcome: Ok(()),
        }
    } else {
        Parsed {
            state: s,
            events: Seq::empty(),
            outcome: Err(
                match env.kind {
                    Some(k) => "tipo de libro desconocido: Some("@ + debugged(k) + ")"@,
                    None => "tipo de libro desconocido: None"@,
                },
            ),
        }
    }
}

/// The trade of a message, or why it is refused.
pub open spec fn trade_event(ts: Option<u64>, t: TradeSeen, rx: RxStamp) -> Result<
    EventView,
    Seq<char>,
> {
    if fixed8(t.v) is Err {
        Err(refusal("v "@, t.v, fixed8(t.v)->Err_0))
    } else if fixed8(t.p) is Err {
        Err(refusal("p "@, t.p, fixed8(t.p)->Err_0))
    } else if t.side != "Buy"@ && t.side != "Sell"@ {
        Err("S desconocido: "@ + t.side)
    } else {
        let id = match unsigned(t.i) {
            Some(v) => v,
            None => fnv(encode_utf8(t.i)),
        };
        let qty = Qty(fixed8(t.v)->Ok_0);
        Ok(
            EventView::Trade(
                AggTrade {
                    agg_id: id,
                    first_trade_id: id,
                    last_trade_id: id,
                    px: Px(fixed8(t.p)->Ok_0),
                    qty,
                    qty_normal: Some(
                        if t.rpi {
                            Qty(0)
                        } else {
                            qty
                        },
                    ),
                    aggressor: if t.side == "Buy"@ {
                        Aggressor::Buy
                    } else {
                        Aggressor::Sell
                    },
                    trade_ts_ms: t.t,
                    exch_ts_ms: match ts {
                        Some(x) => if x < t.t {
                            t.t
                        } else {
                            x
                        },
                        None => t.t,
                    },
                    rx,
                },
            ),
        )
    }
}

/// The events of some trades, up to the first that is refused.
pub open spec fn trades_next(ts: Option<u64>, v: Seq<TradeSeen>, rx: RxStamp) -> (
    Seq<EventView>,
    Result<(), Seq<char>>,
)
    decreases v.len(),
{
    if v.len() == 0 {
        (Seq::empty(), Ok(()))
    } else {
        let (ev, r) = trades_next(ts, v.drop_last(), rx);
        if r is Err {
            (ev, r)
        } else {
            match trade_event(ts, v.last(), rx) {
                Ok(e) => (ev.push(e), Ok(())),
                Err(e) => (ev, Err(e)),
            }
        }
    }
}

/// What a message with its envelope read does.
pub open spec fn message_next(s: BybitState, env: EnvelopeSeen, rx: RxStamp) -> Parsed<
    BybitState,
> {
    let quiet = Parsed { state: s, events: Seq::empty(), outcome: Ok(()) };
    if env.op is Some {
        if env.success == Some(false) {
            Parsed {
                outcome: Err(
                    "Bybit rechazó "@ + env.op->0 + ": "@ + (match env.ret_msg {
                        Some(m) => m,
                        None => ""@,
                    }),
                ),
                ..quiet
            }
        } else {
            quiet
        }
    } else if env.topic is None || env.data is None {
        quiet
    } else if starts(env.topic->0, "orderbook."@) {
        match book_of(env.data->0) {
            Err(e) => Parsed { outcome: Err(e), ..quiet },
            Ok(b) => book_next(s, env, b, rx),
        }
    } else if starts(env.topic->0, "publicTrade."@) {
        match json_array(env.data->0) {
            Err(e) => Parsed { outcome: Err(e), ..quiet },
            Ok(items) => match trades_of(items) {
                Err(e) => Parsed { outcome: Err(e), ..quiet },
                Ok(v) => {
                    let (events, outcome) = trades_next(env.ts, v, rx);
                    Parsed { state: s, events, outcome }
                },
            },
        }
    } else {
        quiet
    }
}

/// What a frame does.
pub open spec fn frame_next(s: BybitState, text: Seq<char>, rx: RxStamp) -> Parsed<BybitState> {
    match envelope_of(text) {
        Err(e) => Parsed { state: s, events: Seq::empty(), outcome: Err(e) },
        Ok(env) => message_next(s, env, rx),
    }
}

/// The topic of the book of a symbol.
pub open spec fn book_topic(symbol: Seq<char>) -> Seq<char> {
    "orderbook.1000."@ + symbol
}

/// An operation on some topics.
pub open spec fn request_text(op: Seq<char>, topics: Seq<char>) -> Seq<char> {
    "{\"args\":["@ + topics + "],\"op\":\""@ + op + "\"}"@
}

fn request(op: &str, topics: &str) -> (r: String)
    ensures
        r@ == request_text(op@, topics@),
{
    let mut s = String::from_str("{\"args\":[");
    s.append(topics);
    s.append("],\"op\":\"");
    s.append(op);
    s.append("\"}");
    s
}

proof fn lemma_trades_stop(ts: Option<u64>, v: Seq<TradeSeen>, rx: RxStamp, i: int)
    requires
        0 <= i <= v.len(),
        trades_next(ts, v.take(i), rx).1 is Err,
    ensures
        trades_next(ts, v, rx) == trades_next(ts, v.take(i), rx),
    decreases v.len() - i,
{
    if i < v.len() {
        assert(v.take(i + 1).drop_last() =~= v.take(i));
        lemma_trades_stop(ts, v, rx, i + 1);
    } else {
        assert(v.take(i) =~= v);
    }
}

/// The trade of a message; `ts` is the time of emission.
pub fn read_trade_event(ts: Option<u64>, t: &TradeWire, rx: RxStamp) -> (r: Result<
    MarketEvent,
    String,
>)
    ensures
        match r {
            Ok(e) => trade_event(ts, t.deep_view(), rx) == Ok::<EventView, Seq<char>>(e@),
            Err(e) => trade_event(ts, t.deep_view(), rx) == Err::<EventView, Seq<char>>(e@),
        },
{
    let id = match parse_u64(t.i.as_str()) {
        Some(v) => v,
        None => fnv1a64(t.i.as_str()),
    };
    let qty = match Qty::parse(t.v.as_str()) {
        Ok(q) => q,
        Err(e) => return Err(refused("v ", t.v.as_str(), e)),
    };
    let px = match Px::parse(t.p.as_str()) {
        Ok(q) => q,
        Err(e) => return Err(refused("p ", t.p.as_str(), e)),
    };
    let aggressor = if same_text(t.side.as_str(), "Buy") {
        Aggressor::Buy
    } else if same_text(t.side.as_str(), "Sell") {
        Aggressor::Sell
    } else {
        let mut s = String::from_str("S desconocido: ");
        s.append(t.side.as_str());
        return Err(s);
    };
    let exch: u64 = match ts {
        Some(x) => if x < t.t {
            t.t
        } else {
            x
        },
        None => t.t,
    };
    Ok(
        MarketEvent::Trade(
            AggTrade {
                agg_id: id,
                first_trade_id: id,
                last_trade_id: id,
                px,
                qty,
                qty_normal: Some(
                    if t.rpi {
                        Qty::zero()
                    } else {
                        qty
                    },
                ),
                aggressor,
                trade_ts_ms: t.t,
                exch_ts_ms: exch,
                rx,
            },
        ),
    )
}

/// The events of some trades, up to the first that is refused.
pub fn on_trades(
    ts: Option<u64>,
    v: &Vec<TradeWire>,
    rx: RxStamp,
    out: &mut Vec<MarketEvent>,
) -> (r: Result<(), String>)
    ensures
        ({
            let (ev, o) = trades_next(ts, v.deep_view(), rx);
            &&& events_of(final(out)@) == events_of(old(out)@) + ev
            &&& said(r) == o
        }),
{
    let ghost d = v.deep_view();
    let ghost before = events_of(out@);
    let mut i: usize = 0;
    assert(d.take(0) =~= Seq::<TradeSeen>::empty());
    assert(before + Seq::<EventView>::empty() =~= before);
    while i < v.len()
        invariant
            i <= v.len(),
            d == v.deep_view(),
            d.len() == v.len(),
            before == events_of(old(out)@),
            trades_next(ts, d.take(i as int), rx).1 is Ok,
            events_of(out@) == before + trades_next(ts, d.take(i as int), rx).0,
        decreases v.len() - i,
    {
        let ghost done = trades_next(ts, d.take(i as int), rx).0;
        proof {
            assert(d.take(i + 1).drop_last() =~= d.take(i as int));
            assert(d.take(i + 1).last() == v[i as int].deep_view());
        }
        match read_trade_event(ts, &v[i], rx) {
            Ok(e) => {
                let ghost was = out@;
                out.push(e);
                assert(events_of(out@) =~= events_of(was).push(e@));
                assert(events_of(out@) =~= before + done.push(e@));
            },
            Err(e) => {
                proof {
                    lemma_trades_stop(ts, d, rx, i + 1);
                }
                return Err(e);
            },
        }
        i += 1;
    }
    assert(d.take(i as int) =~= d);
    Ok(())
}

impl BybitProtocol {
    /// What the protocol holds.
    pub closed spec fn content(&self) -> BybitState {
        BybitState { symbol: self.symbol@, epoch: self.epoch, last_u: self.last_u }
    }

    /// Native symbol (`SOLUSDT`).
    pub fn new(symbol: &str) -> (r: Self)
        ensures
            r.content() == (BybitState { symbol: symbol@, epoch: 0, last_u: 0 }),
    {
        BybitProtocol { symbol: String::from_str(symbol), epoch: 0, last_u: 0 }
    }

    /// Global id with its epoch: an id under the last one seen opens a new epoch.
    pub fn id(&mut self, u: u64) -> (r: u64)
        ensures
            final(self).content() == id_next(old(self).content(), u),
            r == global_id(final(self).content().epoch, u),
    {
        if u < self.last_u {
            self.epoch = self.epoch.saturating_add(1);
        }
        self.last_u = u;
        let e: u64 = self.epoch % 0x10_0000;
        e * 0x1000_0000_0000 + u % 0x1000_0000_0000
    }

    /// What a book message does.
    pub fn on_book(
        &mut self,
        env: &EnvelopeWire,
        b: &BookWire,
        rx: RxStamp,
        out: &mut Vec<MarketEvent>,
    ) -> (r: Result<(), String>)
        ensures
            ({
                let p = book_next(old(self).content(), env.deep_view(), b.deep_view(), rx);
                &&& final(self).content() == p.state
                &&& events_of(final(out)@) == events_of(old(out)@) + p.events
                &&& said(r) == p.outcome
            }),
    {
        assert(events_of(out@) + Seq::<EventView>::empty() =~= events_of(out@));
        let ghost was = out@;
        let ts: u64 = match env.ts {
            Some(t) => t,
            None => 0,
        };
        let bids = match read_levels(&b.b) {
            Ok(v) => v,
            Err(e) => return Err(e),
        };
        let asks = match read_levels(&b.a) {
            Ok(v) => v,
            Err(e) => return Err(e),
        };
        match &env.kind {
            Some(k) => {
                if same_text(k.as_str(), "snapshot") {
                    let id = self.id(b.u);
                    let e = MarketEvent::Snapshot(
                        DepthSnapshot {
                            last_update_id: id,
                            limit: DEPTH,
                            rolling: true,
                            bids,
                            asks,
                            exch_ts_ms: Some(
                                match env.cts {
                                    Some(t) => t,
                                    None => ts,
                                },
                            ),
                            rx,
                        },
                    );
                    out.push(e);
                    assert(events_of(out@) =~= events_of(was) + seq![e@]);
                    Ok(())
                } else if same_text(k.as_str(), "delta") {
                    let id = self.id(b.u);
                    let e = MarketEvent::Depth(
                        DepthDiff {
                            first_id: id,
                            last_id: id,
                            prev_last_id: Some(id.saturating_sub(1)),
                            exch_ts_ms: ts,
                            match_ts_ms: env.cts,
                            bids,
                            asks,
                            rx,
                        },
                    );
                    out.push(e);
                    assert(events_of(out@) =~= events_of(was) + seq![e@]);
                    Ok(())
                } else {
                    let mut s = String::from_str("tipo de libro desconocido: Some(");
                    s.append(debug_text(k.as_str()).as_str());
                    s.append(")");
                    Err(s)
                }
            },
            None => Err(String::from_str("tipo de libro desconocido: None")),
        }
    }

    /// What a message with its envelope read does.
    pub fn on_message(
        &mut self,
        env: &EnvelopeWire,
        rx: RxStamp,
        out: &mut Vec<MarketEvent>,
    ) -> (r: Result<(), String>)
        ensures
            ({
                let p = message_next(old(self).content(), env.deep_view(), rx);
                &&& final(self).content() == p.state
                &&& events_of(final(out)@) == events_of(old(out)@) + p.events
                &&& said(r) == p.outcome
            }),
    {
        assert(events_of(out@) + Seq::<EventView>::empty() =~= events_of(out@));
        if let Some(op) = &env.op {
            let failed = match env.success {
                Some(ok) => !ok,
                None => false,
            };
            if failed {
                let mut e = String::from_str("Bybit rechazó ");
                e.append(op.as_str());
                e.append(": ");
                match &env.ret_msg {
                    Some(m) => e.append(m.as_str()),
                    None => e.append(""),
                }
                return Err(e);
            }
            return Ok(());
        }
        let topic = match &env.topic {
            Some(t) => t,
            None => return Ok(()),
        };
        let data = match &env.data {
            Some(t) => t,
            None => return Ok(()),
        };
        if starts_with(topic.as_str(), "orderbook.") {
            match read_book(data.as_str()) {
                Ok(b) => self.on_book(env, &b, rx, out),
                Err(e) => Err(e),
            }
        } else if starts_with(topic.as_str(), "publicTrade.") {
            let items = match read_array(data.as_str()) {
                Ok(v) => v,
                Err(e) => return Err(e),
            };
            match read_trades(&items) {
                Ok(v) => on_trades(env.ts, &v, rx, out),
                Err(e) => Err(e),
            }
        } else {
            Ok(())
        }
    }

    fn topic(&self) -> (r: String)
        ensures
            r@ == book_topic(self.content().symbol),
    {
        let mut s = String::from_str("orderbook.1000.");
        s.append(self.symbol.as_str());
        s
    }
}

impl Protocol for BybitProtocol {
    type State = BybitState;

    closed spec fn state(&self) -> BybitState {
        self.content()
    }

    open spec fn connect_next(s: BybitState) -> (BybitState, Seq<Seq<char>>) {
        (
            s,
            seq![
                request_text(
                    "subscribe"@,
                    json_quoted(book_topic(s.symbol)) + ","@ + json_quoted(
                        "publicTrade."@ + s.symbol,
                    ),
                ),
            ],
        )
    }

    open spec fn resubscribe_next(s: BybitState) -> (BybitState, Option<Seq<Seq<char>>>) {
        let t = json_quoted(book_topic(s.symbol));
        (s, Some(seq![request_text("unsubscribe"@, t), request_text("subscribe"@, t)]))
    }

    open spec fn heartbeat(s: BybitState) -> Option<(u64, Seq<char>)> {
        Some((20_000, "{\"op\":\"ping\"}"@))
    }

    open spec fn parse_next(s: BybitState, text: Seq<char>, rx: RxStamp) -> Parsed<BybitState> {
        frame_next(s, text, rx)
    }

    open spec fn resync_next(s: BybitState) -> (BybitState, bool) {
        (s, false)
    }

    fn on_connect(&mut self) -> (r: Vec<String>) {
        let mut topics = quoted(self.topic().as_str());
        topics.append(",");
        let mut t = String::from_str("publicTrade.");
        t.append(self.symbol.as_str());
        topics.append(quoted(t.as_str()).as_str());
        let mut v: Vec<String> = Vec::new();
        v.push(request("subscribe", topics.as_str()));
        assert(v.deep_view() =~= Self::connect_next(self.state()).1);
        v
    }

    fn resubscribe(&mut self) -> (r: Option<Vec<String>>) {
        let t = quoted(self.topic().as_str());
        let mut v: Vec<String> = Vec::new();
        v.push(request("unsubscribe", t.as_str()));
        v.push(request("subscribe", t.as_str()));
        assert(v.deep_view() =~= Self::resubscribe_next(self.state()).1->0);
        Some(v)
    }

    fn keepalive(&self) -> (r: Option<(u64, &'static str)>) {
        Some((20_000, "{\"op\":\"ping\"}"))
    }

    fn parse(&mut self, text: &str, rx: RxStamp, out: &mut Vec<MarketEvent>) -> (r: Result<
        (),
        String,
    >) {
        assert(events_of(out@) + Seq::<EventView>::empty() =~= events_of(out@));
        match read_envelope(text) {
            Ok(env) => self.on_message(&env, rx, out),
            Err(e) => Err(e),
        }
    }

    fn take_resync(&mut self) -> (r: bool) {
        false
    }
}

/// Ids never go back: while `u` fits its bits and the epochs do not run out, a later id
/// is never under an earlier one, also across restarts of the service.
pub proof fn law_ids_never_go_back(s: BybitState, u: u64)
    requires
        s.last_u < 0x1000_0000_0000,
        u < 0x1000_0000_0000,
        s.epoch < 0xf_ffff,
    ensures
        global_id(s.epoch, s.last_u) <= global_id(id_next(s, u).epoch, u),
        u != s.last_u ==> global_id(s.epoch, s.last_u) < global_id(id_next(s, u).epoch, u),
{
}

/// Within an epoch, contiguous ids stay contiguous: a delta follows the one before it.
pub proof fn law_contiguous_ids(s: BybitState)
    requires
        s.last_u < 0xfff_ffff_ffff,
    ensures
        ({
            let u = (s.last_u + 1) as u64;
            global_id(id_next(s, u).epoch, u) == global_id(s.epoch, s.last_u) + 1
        }),
{
}

} // verus!

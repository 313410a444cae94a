//! OKX v5 connector: endpoints, protocol and parsing into normalised events.
//!
//! The `books` channel brings a snapshot (400 levels per side) and then updates
//! chained by `prevSeqId`; it is a rolling window, so the coverage is dynamic. The
//! `trades` channel aggregates by taker order. Sizes of perpetuals come in contracts
//! and are converted exactly.

use crate::event::{
    AggTrade, Aggressor, DepthDiff, DepthSnapshot, DiffView, EventView, Level, MarketEvent,
    RxStamp, SnapView,
};
use crate::fixed::{fixed8, Px, Qty, SCALE};
use crate::instrument::{InstrumentSpec, MarketId, MarketKind, Venue};
use crate::json::{
    find_given, get_i64, get_list, get_opt_str, get_str, get_string, get_string_or_empty, given_of,
    i64_in, json_array, json_quoted, list_in, opt_str_in, quads_of, quoted, read_array, read_quads,
    seen, str_in, string_in, string_or_empty_in,
};
use crate::net::{events_of, said, Parsed, Protocol};
use crate::num::clamp_u64;
use crate::quote::{refusal, refused};
use crate::record::{read_record, record_of};
use crate::text::{chars_of, ends, ends_with, parse_u64, same_text, text_between, unsigned};
use vstd::prelude::*;
use vstd::string::StringExecFns;

verus! {

/// Levels that the `books` channel keeps.
pub const BOOK_DEPTH: usize = 400;

/// Base and quote of a symbol such as `SOLUSDT`, where it ends in a known quote.
pub open spec fn symbol_parts(t: Seq<char>) -> Option<(Seq<char>, Seq<char>)> {
    let q = if ends(t, "USDT"@) {
        "USDT"@
    } else if ends(t, "USDC"@) {
        "USDC"@
    } else {
        "USD"@
    };
    if ends(t, q) && t.len() > q.len() {
        Some((t.take(t.len() - q.len()), q))
    } else {
        None
    }
}

/// `SOLUSDT` as (`SOL`, `USDT`).
pub fn split_symbol(symbol: &str) -> (r: Option<(String, String)>)
    ensures
        r.deep_view() == symbol_parts(symbol@),
{
    let quote = if ends_with(symbol, "USDT") {
        "USDT"
    } else if ends_with(symbol, "USDC") {
        "USDC"
    } else {
        "USD"
    };
    let t = chars_of(symbol);
    let q = chars_of(quote);
    if ends_with(symbol, quote) && t.len() > q.len() {
        let base = text_between(&t, 0, t.len() - q.len());
        assert(base@ =~= symbol@.take(symbol@.len() - quote@.len()));
        Some((base, String::from_str(quote)))
    } else {
        None
    }
}

/// Topology of an OKX market.
pub struct OkxEndpoints {
    /// Canonical market (`okx.spot.SOLUSDT`).
    pub market: MarketId,
    /// Native instrument (`SOL-USDT`, `SOL-USDT-SWAP`).
    pub inst_id: String,
    /// Instrument type for REST (`SPOT` or `SWAP`).
    pub inst_type: &'static str,
    /// WebSocket URL of each line.
    pub lines: Vec<String>,
    /// Alternatives of each line.
    pub fallbacks: Vec<Vec<String>>,
    /// REST host.
    pub rest_host: String,
}

/// The instrument of a market.
pub open spec fn inst_text(base: Seq<char>, quote: Seq<char>, kind: MarketKind) -> Seq<char> {
    match kind {
        MarketKind::Spot => base + "-"@ + quote,
        MarketKind::Perp => base + "-"@ + quote + "-SWAP"@,
    }
}

impl OkxEndpoints {
    /// Endpoints of the spot or linear perpetual market of a symbol such as `SOLUSDT`.
    pub fn new(symbol: &str, kind: MarketKind, lines: usize) -> (r: Option<Self>)
        ensures
            match symbol_parts(symbol@) {
                None => r is None,
                Some((base, quote)) => r matches Some(e) && {
                    let n = if lines < 1 {
                        1
                    } else {
                        lines as int
                    };
                    &&& e.market.venue == Venue::Okx
                    &&& e.market.kind == kind
                    &&& e.market.symbol@ == symbol@
                    &&& e.inst_id@ == inst_text(base, quote, kind)
                    &&& e.inst_type@ == (match kind {
                        MarketKind::Spot => "SPOT"@,
                        MarketKind::Perp => "SWAP"@,
                    })
                    &&& e.lines.deep_view() == Seq::new(
                        n as nat,
                        |i: int| "wss://ws.okx.com/ws/v5/public"@,
                    )
                    &&& e.fallbacks.deep_view() == Seq::new(
                        n as nat,
                        |i: int| seq!["wss://wsaws.okx.com:8443/ws/v5/public"@],
                    )
                    &&& e.rest_host@ == "https://www.okx.com"@
                },
            },
    {
        let (base, quote) = match split_symbol(symbol) {
            Some(p) => p,
            None => return None,
        };
        let mut inst_id = base;
        inst_id.append("-");
        inst_id.append(quote.as_str());
        let inst_type = match kind {
            MarketKind::Spot => "SPOT",
            MarketKind::Perp => {
                inst_id.append("-SWAP");
                "SWAP"
            },
        };
        let n: usize = if lines < 1 {
            1
        } else {
            lines
        };
        let mut urls: Vec<String> = Vec::new();
        let mut alternatives: Vec<Vec<String>> = Vec::new();
        let mut i: usize = 0;
        while i < n
            invariant
                i <= n,
                urls.len() == i,
                alternatives.len() == i,
                forall|j: int|
                    0 <= j < i ==> (#[trigger] urls[j])@ == "wss://ws.okx.com/ws/v5/public"@,
                forall|j: int|
                    0 <= j < i ==> (#[trigger] alternatives[j]).deep_view()
                        == seq!["wss://wsaws.okx.com:8443/ws/v5/public"@],
            decreases n - i,
        {
            urls.push(String::from_str("wss://ws.okx.com/ws/v5/public"));
            let mut alt: Vec<String> = Vec::new();
            alt.push(String::from_str("wss://wsaws.okx.com:8443/ws/v5/public"));
            assert(alt.deep_view() =~= seq!["wss://wsaws.okx.com:8443/ws/v5/public"@]);
            alternatives.push(alt);
            i += 1;
        }
        assert(urls.deep_view() =~= Seq::new(
            n as nat,
            |i: int| "wss://ws.okx.com/ws/v5/public"@,
        ));
        assert(alternatives.deep_view() =~= Seq::new(
            n as nat,
            |i: int| seq!["wss://wsaws.okx.com:8443/ws/v5/public"@],
        ));
        Some(
            OkxEndpoints {
                market: MarketId::new(Venue::Okx, kind, symbol),
                inst_id,
                inst_type,
                lines: urls,
                fallbacks: alternatives,
                rest_host: String::from_str("https://www.okx.com"),
            },
        )
    }
}

/// The channel of a message.
pub struct ArgWire {
    /// Channel.
    pub channel: String,
}

/// What a [`ArgWire`] holds.
#[verifier::ext_equal]
pub struct ArgSeen {
    /// Channel.
    pub channel: Seq<char>,
}

impl DeepView for ArgWire {
    type V = ArgSeen;

    open spec fn deep_view(&self) -> ArgSeen {
        ArgSeen {
            channel: self.channel.deep_view(),
        }
    }
}

/// The fields, in order.
pub open spec fn arg_fields() -> Seq<Seq<char>> {
    seq!["channel"@]
}

/// The channel that a text writes, or why it is refused.
pub open spec fn arg_of(text: Seq<char>) -> Result<ArgSeen, Seq<char>> {
    match record_of(text, arg_fields(), 1) {
        Err(e) => Err(e),
        Ok(f) => {
            let channel = str_in(f, "channel"@);
            if channel is Err {
                Err(channel->Err_0)
            } else {
                Ok(ArgSeen { channel: channel->Ok_0 })
            }
        },
    }
}

/// Reads the channel of a message.
pub fn read_arg(text: &str) -> (r: Result<ArgWire, String>)
    ensures
        seen(r) == arg_of(text@),
{
    let fields = ["channel"];
    assert(fields.deep_view() =~= arg_fields());
    let f = match read_record(text, &fields, 1) {
        Ok(f) => f,
        Err(e) => return Err(e),
    };
    let channel = match get_str(&f, "channel") {
        Ok(v) => v,
        Err(e) => return Err(e),
    };
    Ok(ArgWire { channel })
}

/// The envelope of a message.
pub struct EnvelopeWire {
    /// Control event.
    pub event: Option<String>,
    /// Message of a control event.
    pub msg: Option<String>,
    /// Channel.
    pub arg: Option<ArgWire>,
    /// Snapshot or update.
    pub action: Option<String>,
    /// Raw payload.
    pub data: Option<String>,
}

/// What a [`EnvelopeWire`] holds.
#[verifier::ext_equal]
pub struct EnvelopeSeen {
    /// Control event.
    pub event: Option<Seq<char>>,
    /// Message of a control event.
    pub msg: Option<Seq<char>>,
    /// Channel.
    pub arg: Option<ArgSeen>,
    /// Snapshot or update.
    pub action: Option<Seq<char>>,
    /// Raw payload.
    pub data: Option<Seq<char>>,
}

impl DeepView for EnvelopeWire {
    type V = EnvelopeSeen;

    open spec fn deep_view(&self) -> EnvelopeSeen {
        EnvelopeSeen {
            event: self.event.deep_view(),
            msg: self.msg.deep_view(),
            arg: self.arg.deep_view(),
            action: self.action.deep_view(),
            data: self.data.deep_view(),
        }
    }
}

/// The fields, in order.
pub open spec fn envelope_fields() -> Seq<Seq<char>> {
    seq!["event"@, "msg"@, "arg"@, "action"@, "data"@]
}

/// The envelope that a text writes, or why it is refused.
pub open spec fn envelope_of(text: Seq<char>) -> Result<EnvelopeSeen, Seq<char>> {
    match record_of(text, envelope_fields(), 0) {
        Err(e) => Err(e),
        Ok(f) => {
            let event = opt_str_in(f, "event"@);
            let msg = opt_str_in(f, "msg"@);
            let arg = match given_of(f, "arg"@) {
                Some(v) => match arg_of(v) {
                    Ok(x) => Ok(Some(x)),
                    Err(e) => Err(e),
                },
                None => Ok(None),
            };
            let action = opt_str_in(f, "action"@);
            if event is Err {
                Err(event->Err_0)
            } else if msg is Err {
                Err(msg->Err_0)
            } else if arg is Err {
                Err(arg->Err_0)
            } else if action is Err {
                Err(action->Err_0)
            } else {
                Ok(
                    EnvelopeSeen {
                        event: event->Ok_0,
                        msg: msg->Ok_0,
                        arg: arg->Ok_0,
                        action: action->Ok_0,
                        data: given_of(f, "data"@),
                    },
                )
            }
        },
    }
}

/// Reads the envelope of a message.
pub fn read_envelope(text: &str) -> (r: Result<EnvelopeWire, String>)
    ensures
        seen(r) == envelope_of(text@),
{
    let fields = ["event", "msg", "arg", "action", "data"];
    assert(fields.deep_view() =~= envelope_fields());
    let f = match read_record(text, &fields, 0) {
        Ok(f) => f,
        Err(e) => return Err(e),
    };
    let event = match get_opt_str(&f, "event") {
        Ok(v) => v,
        Err(e) => return Err(e),
    };
    let msg = match get_opt_str(&f, "msg") {
        Ok(v) => v,
        Err(e) => return Err(e),
    };
    let arg = match find_given(&f, "arg") {
        Some(v) => match read_arg(v.as_str()) {
            Ok(x) => Some(x),
            Err(e) => return Err(e),
        },
        None => None,
    };
    let action = match get_opt_str(&f, "action") {
        Ok(v) => v,
        Err(e) => return Err(e),
    };
    let data = find_given(&f, "data");
    Ok(EnvelopeWire { event, msg, arg, action, data })
}

/// A book message.
pub struct BookWire {
    /// Asks: price and size.
    pub asks: Vec<(String, String)>,
    /// Bids: price and size.
    pub bids: Vec<(String, String)>,
    /// Time, ms.
    pub ts: String,
    /// Sequence id.
    pub seq_id: i64,
    /// Previous sequence id.
    pub prev_seq_id: i64,
}

/// What a [`BookWire`] holds.
#[verifier::ext_equal]
pub struct BookSeen {
    /// Asks: price and size.
    pub asks: Seq<(Seq<char>, Seq<char>)>,
    /// Bids: price and size.
    pub bids: Seq<(Seq<char>, Seq<char>)>,
    /// Time, ms.
    pub ts: Seq<char>,
    /// Sequence id.
    pub seq_id: i64,
    /// Previous sequence id.
    pub prev_seq_id: i64,
}

impl DeepView for BookWire {
    type V = BookSeen;

    open spec fn deep_view(&self) -> BookSeen {
        BookSeen {
            asks: self.asks.deep_view(),
            bids: self.bids.deep_view(),
            ts: self.ts.deep_view(),
            seq_id: self.seq_id.deep_view(),
            prev_seq_id: self.prev_seq_id.deep_view(),
        }
    }
}

/// The fields, in order.
pub open spec fn book_fields() -> Seq<Seq<char>> {
    seq!["asks"@, "bids"@, "ts"@, "seqId"@, "prevSeqId"@]
}

/// The book message that a text writes, or why it is refused.
pub open spec fn book_of(text: Seq<char>) -> Result<BookSeen, Seq<char>> {
    match record_of(text, book_fields(), 5) {
        Err(e) => Err(e),
        Ok(f) => {
            let asks = match list_in(f, "asks"@) {
                Ok(items) => quads_of(items),
                Err(e) => Err(e),
            };
            let bids = match list_in(f, "bids"@) {
                Ok(items) => quads_of(items),
                Err(e) => Err(e),
            };
            let ts = str_in(f, "ts"@);
            let seq_id = i64_in(f, "seqId"@);
            let prev_seq_id = i64_in(f, "prevSeqId"@);
            if asks is Err {
                Err(asks->Err_0)
            } else if bids is Err {
                Err(bids->Err_0)
            } else if ts is Err {
                Err(ts->Err_0)
            } else if seq_id is Err {
                Err(seq_id->Err_0)
            } else if prev_seq_id is Err {
                Err(prev_seq_id->Err_0)
            } else {
                Ok(
                    BookSeen {
                        asks: asks->Ok_0,
                        bids: bids->Ok_0,
                        ts: ts->Ok_0,
                        seq_id: seq_id->Ok_0,
                        prev_seq_id: prev_seq_id->Ok_0,
                    },
                )
            }
        },
    }
}

/// Reads a book message.
pub fn read_book(text: &str) -> (r: Result<BookWire, String>)
    ensures
        seen(r) == book_of(text@),
{
    let fields = ["asks", "bids", "ts", "seqId", "prevSeqId"];
    assert(fields.deep_view() =~= book_fields());
    let f = match read_record(text, &fields, 5) {
        Ok(f) => f,
        Err(e) => return Err(e),
    };
    let asks = match get_list(&f, "asks") {
        Ok(items) => match read_quads(&items) {
            Ok(v) => v,
            Err(e) => return Err(e),
        },
        Err(e) => return Err(e),
    };
    let bids = match get_list(&f, "bids") {
        Ok(items) => match read_quads(&items) {
            Ok(v) => v,
            Err(e) => return Err(e),
        },
        Err(e) => return Err(e),
    };
    let ts = match get_str(&f, "ts") {
        Ok(v) => v,
        Err(e) => return Err(e),
    };
    let seq_id = match get_i64(&f, "seqId") {
        Ok(v) => v,
        Err(e) => return Err(e),
    };
    let prev_seq_id = match get_i64(&f, "prevSeqId") {
        Ok(v) => v,
        Err(e) => return Err(e),
    };
    Ok(BookWire { asks, bids, ts, seq_id, prev_seq_id })
}

/// All the book messages, or the message of the first that fails.
pub open spec fn books_of(items: Seq<Seq<char>>) -> Result<Seq<BookSeen>, Seq<char>>
    decreases items.len(),
{
    if items.len() == 0 {
        Ok(Seq::empty())
    } else {
        match books_of(items.drop_last()) {
            Err(e) => Err(e),
            Ok(s) => match book_of(items.last()) {
                Err(e) => Err(e),
                Ok(x) => Ok(s.push(x)),
            },
        }
    }
}

proof fn lemma_books_of_stops(items: Seq<Seq<char>>, i: int)
    requires
        0 <= i <= items.len(),
        books_of(items.take(i)) is Err,
    ensures
        books_of(items) == books_of(items.take(i)),
    decreases items.len() - i,
{
    if i < items.len() {
        assert(items.take(i + 1).drop_last() =~= items.take(i));
        lemma_books_of_stops(items, i + 1);
    } else {
        assert(items.take(i) =~= items);
    }
}

/// Reads them all; the first that fails decides.
pub fn read_books(items: &Vec<String>) -> (r: Result<Vec<BookWire>, String>)
    ensures
        seen(r) == books_of(items.deep_view()),
{
    let ghost d = items.deep_view();
    let mut out: Vec<BookWire> = Vec::new();
    let mut i: usize = 0;
    assert(d.take(0) =~= Seq::<Seq<char>>::empty());
    assert(out.deep_view() =~= Seq::<BookSeen>::empty());
    while i < items.len()
        invariant
            i <= items.len(),
            d == items.deep_view(),
            d.len() == items.len(),
            books_of(d.take(i as int)) == Ok::<Seq<BookSeen>, Seq<char>>(out.deep_view()),
        decreases items.len() - i,
    {
        proof {
            assert(d.take(i + 1).drop_last() =~= d.take(i as int));
            assert(d.take(i + 1).last() == items[i as int]@);
        }
        match read_book(items[i].as_str()) {
            Ok(x) => {
                let ghost before = out.deep_view();
                out.push(x);
                assert(out.deep_view() =~= before.push(x.deep_view()));
            },
            Err(e) => {
                proof {
                    lemma_books_of_stops(d, i + 1);
                }
                return Err(e);
            },
        }
        i += 1;
    }
    assert(d.take(i as int) =~= d);
    Ok(out)
}

/// A trade message.
pub struct TradeWire {
    /// Id.
    pub trade_id: String,
    /// Price.
    pub px: String,
    /// Size.
    pub sz: String,
    /// Side of the taker.
    pub side: String,
    /// Time, ms.
    pub ts: String,
    /// Fills.
    pub count: Option<String>,
}

/// What a [`TradeWire`] holds.
#[verifier::ext_equal]
pub struct TradeSeen {
    /// Id.
    pub trade_id: Seq<char>,
    /// Price.
    pub px: Seq<char>,
    /// Size.
    pub sz: Seq<char>,
    /// Side of the taker.
    pub side: Seq<char>,
    /// Time, ms.
    pub ts: Seq<char>,
    /// Fills.
    pub count: Option<Seq<char>>,
}

impl DeepView for TradeWire {
    type V = TradeSeen;

    open spec fn deep_view(&self) -> TradeSeen {
        TradeSeen {
            trade_id: self.trade_id.deep_view(),
            px: self.px.deep_view(),
            sz: self.sz.deep_view(),
            side: self.side.deep_view(),
            ts: self.ts.deep_view(),
            count: self.count.deep_view(),
        }
    }
}

/// The fields, in order.
pub open spec fn trade_fields() -> Seq<Seq<char>> {
    seq!["tradeId"@, "px"@, "sz"@, "side"@, "ts"@, "count"@]
}

/// The trade that a text writes, or why it is refused.
pub open spec fn trade_of(text: Seq<char>) -> Result<TradeSeen, Seq<char>> {
    match record_of(text, trade_fields(), 5) {
        Err(e) => Err(e),
        Ok(f) => {
            let trade_id = str_in(f, "tradeId"@);
            let px = str_in(f, "px"@);
            let sz = str_in(f, "sz"@);
            let side = str_in(f, "side"@);
            let ts = str_in(f, "ts"@);
            let count = opt_str_in(f, "count"@);
            if trade_id is Err {
                Err(trade_id->Err_0)
            } else if px is Err {
                Err(px->Err_0)
            } else if sz is Err {
                Err(sz->Err_0)
            } else if side is Err {
                Err(side->Err_0)
            } else if ts is Err {
                Err(ts->Err_0)
            } else if count is Err {
                Err(count->Err_0)
            } else {
                Ok(
                    TradeSeen {
                        trade_id: trade_id->Ok_0,
                        px: px->Ok_0,
                        sz: sz->Ok_0,
                        side: side->Ok_0,
                        ts: ts->Ok_0,
                        count: count->Ok_0,
                    },
                )
            }
        },
    }
}

/// Reads a trade.
pub fn read_trade(text: &str) -> (r: Result<TradeWire, String>)
    ensures
        seen(r) == trade_of(text@),
{
    let fields = ["tradeId", "px", "sz", "side", "ts", "count"];
    assert(fields.deep_view() =~= trade_fields());
    let f = match read_record(text, &fields, 5) {
        Ok(f) => f,
        Err(e) => return Err(e),
    };
    let trade_id = match get_str(&f, "tradeId") {
        Ok(v) => v,
        Err(e) => return Err(e),
    };
    let px = match get_str(&f, "px") {
        Ok(v) => v,
        Err(e) => return Err(e),
    };
    let sz = match get_str(&f, "sz") {
        Ok(v) => v,
        Err(e) => return Err(e),
    };
    let side = match get_str(&f, "side") {
        Ok(v) => v,
        Err(e) => return Err(e),
    };
    let ts = match get_str(&f, "ts") {
        Ok(v) => v,
        Err(e) => return Err(e),
    };
    let count = match get_opt_str(&f, "count") {
        Ok(v) => v,
        Err(e) => return Err(e),
    };
    Ok(TradeWire { trade_id, px, sz, side, ts, count })
}

/// All the trades, or the message of the first that fails.
pub open spec fn trades_of(items: Seq<Seq<char>>) -> Result<Seq<TradeSeen>, Seq<char>>
    decreases items.len(),
{
    if items.len() == 0 {
        Ok(Seq::empty())
    } else {
        match trades_of(items.drop_last()) {
            Err(e) => Err(e),
            Ok(s) => match trade_of(items.last()) {
                Err(e) => Err(e),
                Ok(x) => Ok(s.push(x)),
            },
        }
    }
}

proof fn lemma_trades_of_stops(items: Seq<Seq<char>>, i: int)
    requires
        0 <= i <= items.len(),
        trades_of(items.take(i)) is Err,
    ensures
        trades_of(items) == trades_of(items.take(i)),
    decreases items.len() - i,
{
    if i < items.len() {
        assert(items.take(i + 1).drop_last() =~= items.take(i));
        lemma_trades_of_stops(items, i + 1);
    } else {
        assert(items.take(i) =~= items);
    }
}

/// Reads them all; the first that fails decides.
pub fn read_trades(items: &Vec<String>) -> (r: Result<Vec<TradeWire>, String>)
    ensures
        seen(r) == trades_of(items.deep_view()),
{
    let ghost d = items.deep_view();
    let mut out: Vec<TradeWire> = Vec::new();
    let mut i: usize = 0;
    assert(d.take(0) =~= Seq::<Seq<char>>::empty());
    assert(out.deep_view() =~= Seq::<TradeSeen>::empty());
    while i < items.len()
        invariant
            i <= items.len(),
            d == items.deep_view(),
            d.len() == items.len(),
            trades_of(d.take(i as int)) == Ok::<Seq<TradeSeen>, Seq<char>>(out.deep_view()),
        decreases items.len() - i,
    {
        proof {
            assert(d.take(i + 1).drop_last() =~= d.take(i as int));
            assert(d.take(i + 1).last() == items[i as int]@);
        }
        match read_trade(items[i].as_str()) {
            Ok(x) => {
                let ghost before = out.deep_view();
                out.push(x);
                assert(out.deep_view() =~= before.push(x.deep_view()));
            },
            Err(e) => {
                proof {
                    lemma_trades_of_stops(d, i + 1);
                }
                return Err(e);
            },
        }
        i += 1;
    }
    assert(d.take(i as int) =~= d);
    Ok(out)
}

/// An instrument of the REST reply.
pub struct InstWire {
    /// Tick.
    pub tick_sz: String,
    /// Lot.
    pub lot_sz: String,
    /// Units per contract, empty in spot.
    pub ct_val: String,
}

/// What a [`InstWire`] holds.
#[verifier::ext_equal]
pub struct InstSeen {
    /// Tick.
    pub tick_sz: Seq<char>,
    /// Lot.
    pub lot_sz: Seq<char>,
    /// Units per contract, empty in spot.
    pub ct_val: Seq<char>,
}

impl DeepView for InstWire {
    type V = InstSeen;

    open spec fn deep_view(&self) -> InstSeen {
        InstSeen {
            tick_sz: self.tick_sz.deep_view(),
            lot_sz: self.lot_sz.deep_view(),
            ct_val: self.ct_val.deep_view(),
        }
    }
}

/// The fields, in order.
pub open spec fn inst_fields() -> Seq<Seq<char>> {
    seq!["tickSz"@, "lotSz"@, "ctVal"@]
}

/// The instrument that a text writes, or why it is refused.
pub open spec fn inst_of(text: Seq<char>) -> Result<InstSeen, Seq<char>> {
    match record_of(text, inst_fields(), 2) {
        Err(e) => Err(e),
        Ok(f) => {
            let tick_sz = string_in(f, "tickSz"@);
            let lot_sz = string_in(f, "lotSz"@);
            let ct_val = string_or_empty_in(f, "ctVal"@);
            if tick_sz is Err {
                Err(tick_sz->Err_0)
            } else if lot_sz is Err {
                Err(lot_sz->Err_0)
            } else if ct_val is Err {
                Err(ct_val->Err_0)
            } else {
                Ok(
                    InstSeen {
                        tick_sz: tick_sz->Ok_0,
                        lot_sz: lot_sz->Ok_0,
                        ct_val: ct_val->Ok_0,
                    },
                )
            }
        },
    }
}

/// Reads an instrument.
pub fn read_inst(text: &str) -> (r: Result<InstWire, String>)
    ensures
        seen(r) == inst_of(text@),
{
    let fields = ["tickSz", "lotSz", "ctVal"];
    assert(fields.deep_view() =~= inst_fields());
    let f = match read_record(text, &fields, 2) {
        Ok(f) => f,
        Err(e) => return Err(e),
    };
    let tick_sz = match get_string(&f, "tickSz") {
        Ok(v) => v,
        Err(e) => return Err(e),
    };
    let lot_sz = match get_string(&f, "lotSz") {
        Ok(v) => v,
        Err(e) => return Err(e),
    };
    let ct_val = match get_string_or_empty(&f, "ctVal") {
        Ok(v) => v,
        Err(e) => return Err(e),
    };
    Ok(InstWire { tick_sz, lot_sz, ct_val })
}

/// All the instruments, or the message of the first that fails.
pub open spec fn insts_of(items: Seq<Seq<char>>) -> Result<Seq<InstSeen>, Seq<char>>
    decreases items.len(),
{
    if items.len() == 0 {
        Ok(Seq::empty())
    } else {
        match insts_of(items.drop_last()) {
            Err(e) => Err(e),
            Ok(s) => match inst_of(items.last()) {
                Err(e) => Err(e),
                Ok(x) => Ok(s.push(x)),
            },
        }
    }
}

proof fn lemma_insts_of_stops(items: Seq<Seq<char>>, i: int)
    requires
        0 <= i <= items.len(),
        insts_of(items.take(i)) is Err,
    ensures
        insts_of(items) == insts_of(items.take(i)),
    decreases items.len() - i,
{
    if i < items.len() {
        assert(items.take(i + 1).drop_last() =~= items.take(i));
        lemma_insts_of_stops(items, i + 1);
    } else {
        assert(items.take(i) =~= items);
    }
}

/// Reads them all; the first that fails decides.
pub fn read_insts(items: &Vec<String>) -> (r: Result<Vec<InstWire>, String>)
    ensures
        seen(r) == insts_of(items.deep_view()),
{
    let ghost d = items.deep_view();
    let mut out: Vec<InstWire> = Vec::new();
    let mut i: usize = 0;
    assert(d.take(0) =~= Seq::<Seq<char>>::empty());
    assert(out.deep_view() =~= Seq::<InstSeen>::empty());
    while i < items.len()
        invariant
            i <= items.len(),
            d == items.deep_view(),
            d.len() == items.len(),
            insts_of(d.take(i as int)) == Ok::<Seq<InstSeen>, Seq<char>>(out.deep_view()),
        decreases items.len() - i,
    {
        proof {
            assert(d.take(i + 1).drop_last() =~= d.take(i as int));
            assert(d.take(i + 1).last() == items[i as int]@);
        }
        match read_inst(items[i].as_str()) {
            Ok(x) => {
                let ghost before = out.deep_view();
                out.push(x);
                assert(out.deep_view() =~= before.push(x.deep_view()));
            },
            Err(e) => {
                proof {
                    lemma_insts_of_stops(d, i + 1);
                }
                return Err(e);
            },
        }
        i += 1;
    }
    assert(d.take(i as int) =~= d);
    Ok(out)
}

/// The REST reply.
pub struct ReplyWire {
    /// Code, `0` where all is well.
    pub code: String,
    /// Message.
    pub msg: String,
    /// Instruments.
    pub data: Vec<InstWire>,
}

/// What a [`ReplyWire`] holds.
#[verifier::ext_equal]
pub struct ReplySeen {
    /// Code, `0` where all is well.
    pub code: Seq<char>,
    /// Message.
    pub msg: Seq<char>,
    /// Instruments.
    pub data: Seq<InstSeen>,
}

impl DeepView for ReplyWire {
    type V = ReplySeen;

    open spec fn deep_view(&self) -> ReplySeen {
        ReplySeen {
            code: self.code.deep_view(),
            msg: self.msg.deep_view(),
            data: self.data.deep_view(),
        }
    }
}

/// The fields, in order.
pub open spec fn reply_fields() -> Seq<Seq<char>> {
    seq!["code"@, "msg"@, "data"@]
}

/// The reply that a text writes, or why it is refused.
pub open spec fn reply_of(text: Seq<char>) -> Result<ReplySeen, Seq<char>> {
    match record_of(text, reply_fields(), 3) {
        Err(e) => Err(e),
        Ok(f) => {
            let code = string_in(f, "code"@);
            let msg = string_or_empty_in(f, "msg"@);
            let data = match list_in(f, "data"@) {
                Ok(items) => insts_of(items),
                Err(e) => Err(e),
            };
            if code is Err {
                Err(code->Err_0)
            } else if msg is Err {
                Err(msg->Err_0)
            } else if data is Err {
                Err(data->Err_0)
            } else {
                Ok(ReplySeen { code: code->Ok_0, msg: msg->Ok_0, data: data->Ok_0 })
            }
        },
    }
}

/// Reads a REST reply.
pub fn read_reply(text: &str) -> (r: Result<ReplyWire, String>)
    ensures
        seen(r) == reply_of(text@),
{
    let fields = ["code", "msg", "data"];
    assert(fields.deep_view() =~= reply_fields());
    let f = match read_record(text, &fields, 3) {
        Ok(f) => f,
        Err(e) => return Err(e),
    };
    let code = match get_string(&f, "code") {
        Ok(v) => v,
        Err(e) => return Err(e),
    };
    let msg = match get_string_or_empty(&f, "msg") {
        Ok(v) => v,
        Err(e) => return Err(e),
    };
    let data = match get_list(&f, "data") {
        Ok(items) => match read_insts(&items) {
            Ok(v) => v,
            Err(e) => return Err(e),
        },
        Err(e) => return Err(e),
    };
    Ok(ReplyWire { code, msg, data })
}

/// What an [`OkxProtocol`] holds.
#[verifier::ext_equal]
pub struct OkxState {
    /// Native instrument.
    pub inst_id: Seq<char>,
    /// Units of base per contract.
    pub contract: Qty,
}

/// OKX protocol of an instrument (books and trades on one connection).
pub struct OkxProtocol {
    inst_id: String,
    contract: Qty,
}

/// A channel of the instrument, as a subscription names it.
pub open spec fn channel_text(channel: Seq<char>, inst: Seq<char>) -> Seq<char> {
    "{\"channel\":\""@ + channel + "\",\"instId\":"@ + json_quoted(inst) + "}"@
}

/// A subscription message.
pub open spec fn request_text(op: Seq<char>, args: Seq<char>) -> Seq<char> {
    "{\"args\":["@ + args + "],\"op\":\""@ + op + "\"}"@
}

fn channel_arg(channel: &str, inst: &str) -> (r: String)
    ensures
        r@ == channel_text(channel@, inst@),
{
    let mut s = String::from_str("{\"channel\":\"");
    s.append(channel);
    s.append("\",\"instId\":");
    s.append(quoted(inst).as_str());
    s.append("}");
    s
}

fn request(op: &str, args: &str) -> (r: String)
    ensures
        r@ == request_text(op@, args@),
{
    let mut s = String::from_str("{\"args\":[");
    s.append(args);
    s.append("],\"op\":\"");
    s.append(op);
    s.append("\"}");
    s
}

/// A size of the venue in units of base, exactly, or why it is refused.
pub open spec fn sized(contract: Qty, sz: Seq<char>) -> Result<Qty, Seq<char>> {
    match fixed8(sz) {
        Err(e) => Err(refusal("sz "@, sz, e)),
        Ok(q) => {
            let prod = q * contract.0;
            if contract.0 == SCALE {
                Ok(Qty(q))
            } else if prod % SCALE as int != 0 {
                Err("sz "@ + sz + " × ctVal no es exacto en 1e-8"@)
            } else if prod / SCALE as int > i64::MAX || prod / SCALE as int <= i64::MIN - 1 {
                Err("desbordamiento de cantidad"@)
            } else {
                Ok(Qty((prod / SCALE as int) as i64))
            }
        },
    }
}

/// A level, or why it is refused.
pub open spec fn level_of(contract: Qty, l: (Seq<char>, Seq<char>)) -> Result<Level, Seq<char>> {
    match fixed8(l.0) {
        Err(e) => Err(refusal("px "@, l.0, e)),
        Ok(p) => match sized(contract, l.1) {
            Err(e) => Err(e),
            Ok(q) => Ok(Level { px: Px(p), qty: q }),
        },
    }
}

/// The levels, or why the first that fails is refused.
pub open spec fn levels_of(contract: Qty, v: Seq<(Seq<char>, Seq<char>)>) -> Result<
    Seq<Level>,
    Seq<char>,
>
    decreases v.len(),
{
    if v.len() == 0 {
        Ok(Seq::empty())
    } else {
        match levels_of(contract, v.drop_last()) {
            Err(e) => Err(e),
            Ok(s) => match level_of(contract, v.last()) {
                Err(e) => Err(e),
                Ok(l) => Ok(s.push(l)),
            },
        }
    }
}

/// A number that a field writes, or the message that refuses it.
pub open spec fn number_of(t: Seq<char>, what: Seq<char>) -> Result<u64, Seq<char>> {
    match unsigned(t) {
        Some(v) => Ok(v),
        None => Err(what + " inválido: "@ + t),
    }
}

/// The event of a book message, or why it is refused.
pub open spec fn book_event(
    contract: Qty,
    snapshot: bool,
    b: BookSeen,
    rx: RxStamp,
) -> Result<EventView, Seq<char>> {
    let ts = number_of(b.ts, "ts"@);
    let bids = levels_of(contract, b.bids);
    let asks = levels_of(contract, b.asks);
    if ts is Err {
        Err(ts->Err_0)
    } else if b.seq_id < 0 {
        Err("seqId negativo"@)
    } else if bids is Err {
        Err(bids->Err_0)
    } else if asks is Err {
        Err(asks->Err_0)
    } else if snapshot {
        Ok(
            EventView::Snapshot(
                SnapView {
                    last_update_id: b.seq_id as u64,
                    limit: BOOK_DEPTH as nat,
                    bids: bids->Ok_0,
                    asks: asks->Ok_0,
                    exch_ts_ms: Some(ts->Ok_0),
                    rolling: true,
                    rx,
                },
            ),
        )
    } else if b.prev_seq_id < 0 {
        Err("update con prevSeqId negativo"@)
    } else {
        Ok(
            EventView::Depth(
                DiffView {
                    first_id: (b.prev_seq_id + 1) as u64,
                    last_id: b.seq_id as u64,
                    prev_last_id: Some(b.prev_seq_id as u64),
                    exch_ts_ms: ts->Ok_0,
                    match_ts_ms: None,
                    bids: bids->Ok_0,
                    asks: asks->Ok_0,
                    rx,
                },
            ),
        )
    }
}

/// The trade of a message, or why it is refused.
pub open spec fn trade_event(contract: Qty, t: TradeSeen, rx: RxStamp) -> Result<
    EventView,
    Seq<char>,
> {
    let id = number_of(t.trade_id, "tradeId"@);
    let ts = number_of(t.ts, "ts"@);
    let count = match t.count {
        Some(c) => number_of(c, "count"@),
        None => Ok(1),
    };
    let qty = sized(contract, t.sz);
    if id is Err {
        Err(id->Err_0)
    } else if ts is Err {
        Err(ts->Err_0)
    } else if count is Err {
        Err(count->Err_0)
    } else if fixed8(t.px) is Err {
        Err("px: "@ + fixed8(t.px)->Err_0.text())
    } else if qty is Err {
        Err(qty->Err_0)
    } else if t.side != "buy"@ && t.side != "sell"@ {
        Err("side desconocido: "@ + t.side)
    } else {
        let fills = if count->Ok_0 < 1 {
            1
        } else {
            count->Ok_0 as int
        };
        Ok(
            EventView::Trade(
                AggTrade {
                    agg_id: id->Ok_0,
                    first_trade_id: id->Ok_0,
                    last_trade_id: clamp_u64(id->Ok_0 + fills - 1) as u64,
                    px: Px(fixed8(t.px)->Ok_0),
                    qty: qty->Ok_0,
                    qty_normal: None,
                    aggressor: if t.side == "buy"@ {
                        Aggressor::Buy
                    } else {
                        Aggressor::Sell
                    },
                    trade_ts_ms: ts->Ok_0,
                    exch_ts_ms: ts->Ok_0,
                    rx,
                },
            ),
        )
    }
}

/// The events of some book messages, up to the first that is refused.
pub open spec fn books_next(contract: Qty, snapshot: bool, v: Seq<BookSeen>, rx: RxStamp) -> (
    Seq<EventView>,
    Result<(), Seq<char>>,
)
    decreases v.len(),
{
    if v.len() == 0 {
        (Seq::empty(), Ok(()))
    } else {
        let (ev, r) = books_next(contract, snapshot, v.drop_last(), rx);
        if r is Err {
            (ev, r)
        } else {
            match book_event(contract, snapshot, v.last(), rx) {
                Ok(e) => (ev.push(e), Ok(())),
                Err(e) => (ev, Err(e)),
            }
        }
    }
}

/// The events of some trades, up to the first that is refused.
pub open spec fn trades_next(contract: Qty, v: Seq<TradeSeen>, rx: RxStamp) -> (
    Seq<EventView>,
    Result<(), Seq<char>>,
)
    decreases v.len(),
{
    if v.len() == 0 {
        (Seq::empty(), Ok(()))
    } else {
        let (ev, r) = trades_next(contract, v.drop_last(), rx);
        if r is Err {
            (ev, r)
        } else {
            match trade_event(contract, v.last(), rx) {
                Ok(e) => (ev.push(e), Ok(())),
                Err(e) => (ev, Err(e)),
            }
        }
    }
}

/// What a message with its envelope read does.
pub open spec fn message_next(s: OkxState, env: EnvelopeSeen, rx: RxStamp) -> (
    Seq<EventView>,
    Result<(), Seq<char>>,
) {
    if env.event is Some {
        if env.event->0 == "error"@ {
            (
                Seq::empty(),
                Err(
                    "OKX error: "@ + (match env.msg {
                        Some(m) => m,
                        None => ""@,
                    }),
                ),
            )
        } else {
            (Seq::empty(), Ok(()))
        }
    } else if env.arg is None || env.data is None {
        (Seq::empty(), Ok(()))
    } else if env.arg->0.channel == "books"@ {
        match json_array(env.data->0) {
            Err(e) => (Seq::empty(), Err(e)),
            Ok(items) => match books_of(items) {
                Err(e) => (Seq::empty(), Err(e)),
                Ok(v) => books_next(s.contract, env.action == Some("snapshot"@), v, rx),
            },
        }
    } else if env.arg->0.channel == "trades"@ {
        match json_array(env.data->0) {
            Err(e) => (Seq::empty(), Err(e)),
            Ok(items) => match trades_of(items) {
                Err(e) => (Seq::empty(), Err(e)),
                Ok(v) => trades_next(s.contract, v, rx),
            },
        }
    } else {
        (Seq::empty(), Ok(()))
    }
}

/// What a frame does.
pub open spec fn frame_next(s: OkxState, text: Seq<char>, rx: RxStamp) -> (
    Seq<EventView>,
    Result<(), Seq<char>>,
) {
    if text == "pong"@ {
        (Seq::empty(), Ok(()))
    } else {
        match envelope_of(text) {
            Err(e) => (Seq::empty(), Err(e)),
            Ok(env) => message_next(s, env, rx),
        }
    }
}

proof fn lemma_levels_stop(contract: Qty, v: Seq<(Seq<char>, Seq<char>)>, i: int)
    requires
        0 <= i <= v.len(),
        levels_of(contract, v.take(i)) is Err,
    ensures
        levels_of(contract, v) == levels_of(contract, v.take(i)),
    decreases v.len() - i,
{
    if i < v.len() {
        assert(v.take(i + 1).drop_last() =~= v.take(i));
        lemma_levels_stop(contract, v, i + 1);
    } else {
        assert(v.take(i) =~= v);
    }
}

proof fn lemma_books_stop(contract: Qty, snapshot: bool, v: Seq<BookSeen>, rx: RxStamp, i: int)
    requires
        0 <= i <= v.len(),
        books_next(contract, snapshot, v.take(i), rx).1 is Err,
    ensures
        books_next(contract, snapshot, v, rx) == books_next(contract, snapshot, v.take(i), rx),
    decreases v.len() - i,
{
    if i < v.len() {
        assert(v.take(i + 1).drop_last() =~= v.take(i));
        lemma_books_stop(contract, snapshot, v, rx, i + 1);
    } else {
        assert(v.take(i) =~= v);
    }
}

proof fn lemma_trades_stop(contract: Qty, v: Seq<TradeSeen>, rx: RxStamp, i: int)
    requires
        0 <= i <= v.len(),
        trades_next(contract, v.take(i), rx).1 is Err,
    ensures
        trades_next(contract, v, rx) == trades_next(contract, v.take(i), rx),
    decreases v.len() - i,
{
    if i < v.len() {
        assert(v.take(i + 1).drop_last() =~= v.take(i));
        lemma_trades_stop(contract, v, rx, i + 1);
    } else {
        assert(v.take(i) =~= v);
    }
}

fn number(s: &str, what: &str) -> (r: Result<u64, String>)
    ensures
        seen(r) == number_of(s@, what@),
{
    match parse_u64(s) {
        Some(v) => Ok(v),
        None => {
            let mut e = String::from_str(what);
            e.append(" inválido: ");
            e.append(s);
            Err(e)
        },
    }
}

impl OkxProtocol {
    /// What the protocol holds.
    pub closed spec fn content(&self) -> OkxState {
        OkxState { inst_id: self.inst_id@, contract: self.contract }
    }

    /// `contract` is the value of a contract in units of base (1 in spot).
    pub fn new(inst_id: &str, contract: Qty) -> (r: Self)
        ensures
            r.content() == (OkxState { inst_id: inst_id@, contract }),
    {
        OkxProtocol { inst_id: String::from_str(inst_id), contract }
    }

    /// A size of the venue in units of base, exactly.
    pub fn qty(&self, sz: &str) -> (r: Result<Qty, String>)
        ensures
            match r {
                Ok(q) => sized(self.content().contract, sz@) == Ok::<Qty, Seq<char>>(q),
                Err(e) => sized(self.content().contract, sz@) == Err::<Qty, Seq<char>>(e@),
            },
    {
        let q = match Qty::parse(sz) {
            Ok(q) => q,
            Err(e) => return Err(refused("sz ", sz, e)),
        };
        if self.contract.0 == SCALE {
            return Ok(q);
        }
        assert(-0x4000_0000_0000_0000_0000_0000_0000_0000 <= q.0 * self.contract.0
            <= 0x4000_0000_0000_0000_0000_0000_0000_0000) by (nonlinear_arith)
            requires
                i64::MIN <= q.0 <= i64::MAX,
                i64::MIN <= self.contract.0 <= i64::MAX,
        ;
        let prod: i128 = q.0 as i128 * self.contract.0 as i128;
        if prod % 100_000_000 != 0 {
            let mut e = String::from_str("sz ");
            e.append(sz);
            e.append(" × ctVal no es exacto en 1e-8");
            return Err(e);
        }
        let v: i128 = prod / 100_000_000;
        if v > 0x7fff_ffff_ffff_ffff || v < -0x8000_0000_0000_0000 {
            return Err(String::from_str("desbordamiento de cantidad"));
        }
        Ok(Qty::from_raw(v as i64))
    }

    /// The levels of a side.
    pub fn levels(&self, v: &Vec<(String, String)>) -> (r: Result<Vec<Level>, String>)
        ensures
            match r {
                Ok(l) => levels_of(self.content().contract, v.deep_view()) == Ok::<
                    Seq<Level>,
                    Seq<char>,
                >(l@),
                Err(e) => levels_of(self.content().contract, v.deep_view()) == Err::<
                    Seq<Level>,
                    Seq<char>,
                >(e@),
            },
    {
        let ghost d = v.deep_view();
        let ghost contract = self.content().contract;
        let mut out: Vec<Level> = Vec::new();
        let mut i: usize = 0;
        assert(d.take(0) =~= Seq::<(Seq<char>, Seq<char>)>::empty());
        assert(out@ =~= Seq::<Level>::empty());
        while i < v.len()
            invariant
                i <= v.len(),
                d == v.deep_view(),
                d.len() == v.len(),
                contract == self.content().contract,
                levels_of(contract, d.take(i as int)) == Ok::<Seq<Level>, Seq<char>>(out@),
            decreases v.len() - i,
        {
            proof {
                assert(d.take(i + 1).drop_last() =~= d.take(i as int));
                assert(d.take(i + 1).last() == (v[i as int].0@, v[i as int].1@));
            }
            let px = match Px::parse(v[i].0.as_str()) {
                Ok(p) => p,
                Err(e) => {
                    proof {
                        lemma_levels_stop(contract, d, i + 1);
                    }
                    return Err(refused("px ", v[i].0.as_str(), e));
                },
            };
            let qty = match self.qty(v[i].1.as_str()) {
                Ok(q) => q,
                Err(e) => {
                    proof {
                        lemma_levels_stop(contract, d, i + 1);
                    }
                    return Err(e);
                },
            };
            out.push(Level { px, qty });
            i += 1;
        }
        assert(d.take(i as int) =~= d);
        Ok(out)
    }

    /// The event of a book message.
    pub fn book(&self, snapshot: bool, b: &BookWire, rx: RxStamp) -> (r: Result<
        MarketEvent,
        String,
    >)
        ensures
            match r {
                Ok(e) => book_event(self.content().contract, snapshot, b.deep_view(), rx) == Ok::<
                    EventView,
                    Seq<char>,
                >(e@),
                Err(e) => book_event(self.content().contract, snapshot, b.deep_view(), rx)
                    == Err::<EventView, Seq<char>>(e@),
            },
    {
        let ts = match number(b.ts.as_str(), "ts") {
            Ok(v) => v,
            Err(e) => return Err(e),
        };
        if b.seq_id < 0 {
            return Err(String::from_str("seqId negativo"));
        }
        let last: u64 = b.seq_id as u64;
        let bids = match self.levels(&b.bids) {
            Ok(v) => v,
            Err(e) => return Err(e),
        };
        let asks = match self.levels(&b.asks) {
            Ok(v) => v,
            Err(e) => return Err(e),
        };
        if snapshot {
            return Ok(
                MarketEvent::Snapshot(
                    DepthSnapshot {
                        last_update_id: last,
                        limit: BOOK_DEPTH,
                        rolling: true,
                        bids,
                        asks,
                        exch_ts_ms: Some(ts),
                        rx,
                    },
                ),
            );
        }
        if b.prev_seq_id < 0 {
            return Err(String::from_str("update con prevSeqId negativo"));
        }
        let prev: u64 = b.prev_seq_id as u64;
        Ok(
            MarketEvent::Depth(
                DepthDiff {
                    first_id: prev + 1,
                    last_id: last,
                    prev_last_id: Some(prev),
                    exch_ts_ms: ts,
                    match_ts_ms: None,
                    bids,
                    asks,
                    rx,
                },
            ),
        )
    }

    /// The trade of a message.
    pub fn trade(&self, t: &TradeWire, rx: RxStamp) -> (r: Result<MarketEvent, String>)
        ensures
            match r {
                Ok(e) => trade_event(self.content().contract, t.deep_view(), rx) == Ok::<
                    EventView,
                    Seq<char>,
                >(e@),
                Err(e) => trade_event(self.content().contract, t.deep_view(), rx) == Err::<
                    EventView,
                    Seq<char>,
                >(e@),
            },
    {
        let id = match number(t.trade_id.as_str(), "tradeId") {
            Ok(v) => v,
            Err(e) => return Err(e),
        };
        let ts = match number(t.ts.as_str(), "ts") {
            Ok(v) => v,
            Err(e) => return Err(e),
        };
        let count: u64 = match &t.count {
            Some(c) => match number(c.as_str(), "count") {
                Ok(v) => v,
                Err(e) => return Err(e),
            },
            None => 1,
        };
        let more: u64 = if count < 1 {
            0
        } else {
            count - 1
        };
        let px = match Px::parse(t.px.as_str()) {
            Ok(p) => p,
            Err(e) => {
                let mut s = String::from_str("px: ");
                s.append(e.message());
                return Err(s);
            },
        };
        let qty = match self.qty(t.sz.as_str()) {
            Ok(q) => q,
            Err(e) => return Err(e),
        };
        let aggressor = if same_text(t.side.as_str(), "buy") {
            Aggressor::Buy
        } else if same_text(t.side.as_str(), "sell") {
            Aggressor::Sell
        } else {
            let mut s = String::from_str("side desconocido: ");
            s.append(t.side.as_str());
            return Err(s);
        };
        Ok(
            MarketEvent::Trade(
                AggTrade {
                    agg_id: id,
                    first_trade_id: id,
                    last_trade_id: id.saturating_add(more),
                    px,
                    qty,
                    qty_normal: None,
                    aggressor,
                    trade_ts_ms: ts,
                    exch_ts_ms: ts,
                    rx,
                },
            ),
        )
    }

    /// The events of some book messages, up to the first that is refused.
    pub fn on_books(
        &self,
        snapshot: bool,
        v: &Vec<BookWire>,
        rx: RxStamp,
        out: &mut Vec<MarketEvent>,
    ) -> (r: Result<(), String>)
        ensures
            ({
                let (ev, o) = books_next(self.content().contract, snapshot, v.deep_view(), rx);
                &&& events_of(final(out)@) == events_of(old(out)@) + ev
                &&& said(r) == o
            }),
    {
        let ghost d = v.deep_view();
        let ghost contract = self.content().contract;
        let ghost before = events_of(out@);
        let mut i: usize = 0;
        assert(d.take(0) =~= Seq::<BookSeen>::empty());
        assert(before + Seq::<EventView>::empty() =~= before);
        while i < v.len()
            invariant
                i <= v.len(),
                d == v.deep_view(),
                d.len() == v.len(),
                contract == self.content().contract,
                before == events_of(old(out)@),
                books_next(contract, snapshot, d.take(i as int), rx).1 is Ok,
                events_of(out@) == before + books_next(
                    contract,
                    snapshot,
                    d.take(i as int),
                    rx,
                ).0,
            decreases v.len() - i,
        {
            let ghost done = books_next(contract, snapshot, d.take(i as int), rx).0;
            proof {
                assert(d.take(i + 1).drop_last() =~= d.take(i as int));
                assert(d.take(i + 1).last() == v[i as int].deep_view());
            }
            match self.book(snapshot, &v[i], rx) {
                Ok(e) => {
                    let ghost was = out@;
                    out.push(e);
                    assert(events_of(out@) =~= events_of(was).push(e@));
                    assert(events_of(out@) =~= before + done.push(e@));
                },
                Err(e) => {
                    proof {
                        lemma_books_stop(contract, snapshot, d, rx, i + 1);
                    }
                    return Err(e);
                },
            }
            i += 1;
        }
        assert(d.take(i as int) =~= d);
        Ok(())
    }

    /// The events of some trades, up to the first that is refused.
    pub fn on_trades(&self, v: &Vec<TradeWire>, rx: RxStamp, out: &mut Vec<MarketEvent>) -> (r:
        Result<(), String>)
        ensures
            ({
                let (ev, o) = trades_next(self.content().contract, v.deep_view(), rx);
                &&& events_of(final(out)@) == events_of(old(out)@) + ev
                &&& said(r) == o
            }),
    {
        let ghost d = v.deep_view();
        let ghost contract = self.content().contract;
        let ghost before = events_of(out@);
        let mut i: usize = 0;
        assert(d.take(0) =~= Seq::<TradeSeen>::empty());
        assert(before + Seq::<EventView>::empty() =~= before);
        while i < v.len()
            invariant
                i <= v.len(),
                d == v.deep_view(),
                d.len() == v.len(),
                contract == self.content().contract,
                before == events_of(old(out)@),
                trades_next(contract, d.take(i as int), rx).1 is Ok,
                events_of(out@) == before + trades_next(contract, d.take(i as int), rx).0,
            decreases v.len() - i,
        {
            let ghost done = trades_next(contract, d.take(i as int), rx).0;
            proof {
                assert(d.take(i + 1).drop_last() =~= d.take(i as int));
                assert(d.take(i + 1).last() == v[i as int].deep_view());
            }
            match self.trade(&v[i], rx) {
                Ok(e) => {
                    let ghost was = out@;
                    out.push(e);
                    assert(events_of(out@) =~= events_of(was).push(e@));
                    assert(events_of(out@) =~= before + done.push(e@));
                },
                Err(e) => {
                    proof {
                        lemma_trades_stop(contract, d, rx, i + 1);
                    }
                    return Err(e);
                },
            }
            i += 1;
        }
        assert(d.take(i as int) =~= d);
        Ok(())
    }

    /// What a message with its envelope read does.
    pub fn on_message(&self, env: &EnvelopeWire, rx: RxStamp, out: &mut Vec<MarketEvent>) -> (r:
        Result<(), String>)
        ensures
            ({
                let (ev, o) = message_next(self.content(), env.deep_view(), rx);
                &&& events_of(final(out)@) == events_of(old(out)@) + ev
                &&& said(r) == o
            }),
    {
        assert(events_of(out@) + Seq::<EventView>::empty() =~= events_of(out@));
        if let Some(ev) = &env.event {
            if same_text(ev.as_str(), "error") {
                let mut e = String::from_str("OKX error: ");
                match &env.msg {
                    Some(m) => e.append(m.as_str()),
                    None => e.append(""),
                }
                return Err(e);
            }
            return Ok(());
        }
        let arg = match &env.arg {
            Some(a) => a,
            None => return Ok(()),
        };
        let data = match &env.data {
            Some(d) => d,
            None => return Ok(()),
        };
        if same_text(arg.channel.as_str(), "books") {
            let items = match read_array(data.as_str()) {
                Ok(v) => v,
                Err(e) => return Err(e),
            };
            let books = match read_books(&items) {
                Ok(v) => v,
                Err(e) => return Err(e),
            };
            let snapshot = match &env.action {
                Some(a) => same_text(a.as_str(), "snapshot"),
                None => false,
            };
            self.on_books(snapshot, &books, rx, out)
        } else if same_text(arg.channel.as_str(), "trades") {
            let items = match read_array(data.as_str()) {
                Ok(v) => v,
                Err(e) => return Err(e),
            };
            let trades = match read_trades(&items) {
                Ok(v) => v,
                Err(e) => return Err(e),
            };
            self.on_trades(&trades, rx, out)
        } else {
            Ok(())
        }
    }
}

impl Protocol for OkxProtocol {
    type State = OkxState;

    closed spec fn state(&self) -> OkxState {
        self.content()
    }

    open spec fn connect_next(s: OkxState) -> (OkxState, Seq<Seq<char>>) {
        (
            s,
            seq![
                request_text(
                    "subscribe"@,
                    channel_text("books"@, s.inst_id) + ","@ + channel_text("trades"@, s.inst_id),
                ),
            ],
        )
    }

    open spec fn resubscribe_next(s: OkxState) -> (OkxState, Option<Seq<Seq<char>>>) {
        let books = channel_text("books"@, s.inst_id);
        (s, Some(seq![request_text("unsubscribe"@, books), request_text("subscribe"@, books)]))
    }

    open spec fn heartbeat(s: OkxState) -> Option<(u64, Seq<char>)> {
        Some((20_000, "ping"@))
    }

    open spec fn parse_next(s: OkxState, text: Seq<char>, rx: RxStamp) -> Parsed<OkxState> {
        let (events, outcome) = frame_next(s, text, rx);
        Parsed { state: s, events, outcome }
    }

    open spec fn resync_next(s: OkxState) -> (OkxState, bool) {
        (s, false)
    }

    fn on_connect(&mut self) -> (r: Vec<String>) {
        let mut args = channel_arg("books", self.inst_id.as_str());
        args.append(",");
        args.append(channel_arg("trades", self.inst_id.as_str()).as_str());
        let mut v: Vec<String> = Vec::new();
        v.push(request("subscribe", args.as_str()));
        assert(v.deep_view() =~= Self::connect_next(self.state()).1);
        v
    }

    fn resubscribe(&mut self) -> (r: Option<Vec<String>>) {
        let books = channel_arg("books", self.inst_id.as_str());
        let mut v: Vec<String> = Vec::new();
        v.push(request("unsubscribe", books.as_str()));
        v.push(request("subscribe", books.as_str()));
        assert(v.deep_view() =~= Self::resubscribe_next(self.state()).1->0);
        Some(v)
    }

    fn keepalive(&self) -> (r: Option<(u64, &'static str)>) {
        Some((20_000, "ping"))
    }

    fn parse(&mut self, text: &str, rx: RxStamp, out: &mut Vec<MarketEvent>) -> (r: Result<
        (),
        String,
    >) {
        assert(events_of(out@) + Seq::<EventView>::empty() =~= events_of(out@));
        if same_text(text, "pong") {
            return Ok(());
        }
        match read_envelope(text) {
            Ok(env) => self.on_message(&env, rx, out),
            Err(e) => Err(e),
        }
    }

    fn take_resync(&mut self) -> (r: bool) {
        false
    }
}

/// The rules of an instrument: tick, quantity step and units of base per contract.
#[verifier::ext_equal]
pub struct Rules {
    /// Tick.
    pub tick: Px,
    /// Quantity step.
    pub step: Qty,
    /// Units of base per contract.
    pub contract: Qty,
}

/// The rules that a reply gives, or why it is refused.
pub open spec fn rules_of(r: ReplySeen) -> Result<Rules, Seq<char>> {
    if r.code != "0"@ {
        Err("code "@ + r.code + ": "@ + r.msg)
    } else if r.data.len() == 0 {
        Err("instrumento inexistente"@)
    } else {
        let i = r.data[0];
        let contract = if i.ct_val.len() == 0 {
            Ok(SCALE)
        } else {
            fixed8(i.ct_val)
        };
        if contract is Err {
            Err(contract->Err_0.text())
        } else if fixed8(i.lot_sz) is Err {
            Err(fixed8(i.lot_sz)->Err_0.text())
        } else if fixed8(i.tick_sz) is Err {
            Err(fixed8(i.tick_sz)->Err_0.text())
        } else {
            let c = contract->Ok_0;
            let step = (fixed8(i.lot_sz)->Ok_0 * c) / (SCALE as int);
            if step > i64::MAX {
                Err("desbordamiento"@)
            } else {
                Ok(Rules { tick: Px(fixed8(i.tick_sz)->Ok_0), step: Qty(step as i64), contract: Qty(c) })
            }
        }
    }
}

/// Rules of the instrument and units of base per contract, out of a reply.
pub fn instrument_of(r: &ReplyWire, market: &MarketId) -> (res: Result<
    (InstrumentSpec, Qty),
    String,
>)
    ensures
        match res {
            Ok((spec, contract)) => {
                &&& rules_of(r.deep_view()) == Ok::<Rules, Seq<char>>(
                    Rules { tick: spec.tick, step: spec.step, contract },
                )
                &&& spec.base_per_contract == contract
                &&& spec.market.text() == market.text()
                &&& spec.market.venue == market.venue
                &&& spec.market.kind == market.kind
            },
            Err(e) => rules_of(r.deep_view()) == Err::<Rules, Seq<char>>(e@),
        },
{
    let ghost d = r.deep_view();
    if !same_text(r.code.as_str(), "0") {
        let mut e = String::from_str("code ");
        e.append(r.code.as_str());
        e.append(": ");
        e.append(r.msg.as_str());
        return Err(e);
    }
    if r.data.len() == 0 {
        return Err(String::from_str("instrumento inexistente"));
    }
    let i = &r.data[0];
    assert(d.data[0] == i.deep_view());
    let contract = if chars_of(i.ct_val.as_str()).len() == 0 {
        Qty::from_raw(SCALE)
    } else {
        match Qty::parse(i.ct_val.as_str()) {
            Ok(q) => q,
            Err(e) => return Err(String::from_str(e.message())),
        }
    };
    let lot = match Qty::parse(i.lot_sz.as_str()) {
        Ok(q) => q,
        Err(e) => return Err(String::from_str(e.message())),
    };
    let tick = match Px::parse(i.tick_sz.as_str()) {
        Ok(q) => q,
        Err(e) => return Err(String::from_str(e.message())),
    };
    proof {
        crate::fixed::lemma_fixed8_nonneg(i.lot_sz@);
        crate::fixed::lemma_fixed8_nonneg(i.ct_val@);
    }
    assert(0 <= lot.0 * contract.0 <= 0x4000_0000_0000_0000_0000_0000_0000_0000)
        by (nonlinear_arith)
        requires
            0 <= lot.0 <= i64::MAX,
            0 <= contract.0 <= i64::MAX,
    ;
    let step: i128 = lot.0 as i128 * contract.0 as i128 / 100_000_000;
    if step > 0x7fff_ffff_ffff_ffff {
        return Err(String::from_str("desbordamiento"));
    }
    let spec = InstrumentSpec {
        market: MarketId::new(market.venue, market.kind, market.symbol.as_str()),
        tick,
        step: Qty::from_raw(step as i64),
        base_per_contract: contract,
    };
    Ok((spec, contract))
}

/// Reads the reply of the REST service and takes the rules out of it.
pub fn read_instrument(text: &str, market: &MarketId) -> (res: Result<
    (InstrumentSpec, Qty),
    String,
>)
    ensures
        match res {
            Ok((spec, contract)) => {
                &&& reply_of(text@) is Ok
                &&& rules_of(reply_of(text@)->Ok_0) == Ok::<Rules, Seq<char>>(
                    Rules { tick: spec.tick, step: spec.step, contract },
                )
                &&& spec.base_per_contract == contract
                &&& spec.market.text() == market.text()
            },
            Err(e) => match reply_of(text@) {
                Ok(r) => rules_of(r) == Err::<Rules, Seq<char>>(e@),
                Err(m) => m == e@,
            },
        },
{
    match read_reply(text) {
        Ok(r) => instrument_of(&r, market),
        Err(e) => Err(e),
    }
}

/// Why the REST service of OKX gave nothing.
pub enum OkxRestError {
    /// Network or HTTP.
    Http(String),
    /// A reply that was not expected.
    Body(String),
}

impl OkxRestError {
    /// The message.
    pub open spec fn text(self) -> Seq<char> {
        match self {
            OkxRestError::Http(e) => "http: "@ + e@,
            OkxRestError::Body(e) => "respuesta: "@ + e@,
        }
    }

    /// The message.
    pub fn message(&self) -> (r: String)
        ensures
            r@ == self.text(),
    {
        match self {
            OkxRestError::Http(e) => {
                let mut s = String::from_str("http: ");
                s.append(e.as_str());
                s
            },
            OkxRestError::Body(e) => {
                let mut s = String::from_str("respuesta: ");
                s.append(e.as_str());
                s
            },
        }
    }
}

impl OkxEndpoints {
    /// The URL of the rules of the instrument.
    pub fn rules_url(&self) -> (r: String)
        ensures
            r@ == self.rest_host@ + "/api/v5/public/instruments?instType="@ + self.inst_type@
                + "&instId="@ + self.inst_id@,
    {
        let mut s = String::from_str(self.rest_host.as_str());
        s.append("/api/v5/public/instruments?instType=");
        s.append(self.inst_type);
        s.append("&instId=");
        s.append(self.inst_id.as_str());
        s
    }
}

/// Units of base per contract of a market, given those that its rules tell: without rules a
/// spot market deals in units, and the quantities of a perpetual cannot be told.
pub fn contract_size(told: Option<Qty>, kind: MarketKind) -> (r: Option<Qty>)
    ensures
        r == (match (told, kind) {
            (Some(c), _) => Some(c),
            (None, MarketKind::Spot) => Some(Qty(SCALE)),
            (None, MarketKind::Perp) => None,
        }),
{
    match (told, kind) {
        (Some(c), _) => Some(c),
        (None, MarketKind::Spot) => Some(Qty(SCALE)),
        (None, MarketKind::Perp) => None,
    }
}

/// What follows a request for the rules of an instrument.
#[derive(Debug, Clone, Copy, PartialEq, Eq, Structural)]
pub struct AfterTry {
    /// How long to wait, s.
    pub wait_s: u64,
    /// Whether to ask once more.
    pub again: bool,
}

/// How often the rules of an instrument are asked for.
pub const TRIES: u32 = 3;

/// What follows the `n`-th request for the rules of an instrument: those that were found
/// end it; after a refusal there is a wait of 2 s, and one more request up to the third.
pub fn after_try(n: u32, found: bool) -> (r: AfterTry)
    ensures
        r == (AfterTry {
            wait_s: if found {
                0
            } else {
                2
            },
            again: !found && n < TRIES,
        }),
{
    AfterTry {
        wait_s: if found {
            0
        } else {
            2
        },
        again: !found && n < TRIES,
    }
}

} // verus!

//! Binance connector (spot and USD-margined perpetuals): endpoints, parsing into
//! normalised events and the policy of its REST service.

use crate::event::{
    AggTrade, Aggressor, DepthDiff, DepthSnapshot, DiffView, EventView, MarketEvent, RxStamp,
    SnapView,
};
use crate::fixed::{fixed8, parse_fixed8, ParseFixedError, Px, Qty, SCALE};
use crate::instrument::{InstrumentSpec, MarketId, MarketKind, Venue};
use crate::json::{
    bool_in, get_bool, get_list, get_opt_str, get_opt_u64, get_raw, get_str, get_string, get_u64,
    json_object, list_in, opt_str_in, opt_u64_in, pairs_of, raw_in, read_object, read_pairs, seen,
    str_in, string_in, u64_in,
};
use crate::net::{events_of, Parsed, Protocol};
use crate::quote::{levels_of, read_levels};
use crate::record::{read_record, record_of};
use crate::text::{
    contains, ends, ends_with, int_text, lowercase, parse_u64, push_int, same_text, to_lowercase,
    unsigned, within,
};
use vstd::prelude::*;
use vstd::string::StringExecFns;

verus! {

/// Endpoints of a Binance market.
pub struct Endpoints {
    /// Market.
    pub market: MarketId,
    /// Redundant WebSocket lines of depth (and of trades in spot, on the same socket).
    pub depth_lines: Vec<String>,
    /// Redundant WebSocket lines of trades (perpetuals only: another endpoint).
    pub trade_lines: Vec<String>,
    /// Per depth line: alternative URLs, on other hosts.
    pub depth_fallbacks: Vec<Vec<String>>,
    /// REST hosts in order of preference.
    pub rest_hosts: Vec<String>,
    /// REST path of the depth snapshot.
    pub snapshot_path: String,
    /// Levels asked for in the snapshot (it defines the coverage).
    pub snapshot_limit: usize,
    /// REST path of the exchange information.
    pub exchange_info_path: String,
}

/// The host of spot line `i`: the lines alternate.
pub open spec fn spot_host(i: int) -> Seq<char> {
    if i % 2 == 0 {
        "wss://stream.binance.com:443"@
    } else {
        "wss://data-stream.binance.vision"@
    }
}

/// The URL of a spot line on a host, for a symbol in lower case.
pub open spec fn spot_url(host: Seq<char>, s: Seq<char>) -> Seq<char> {
    host + "/stream?streams="@ + s + "@depth@100ms/"@ + s + "@aggTrade"@
}

/// How many lines are opened: at least one.
pub open spec fn line_count(lines: usize) -> nat {
    if lines < 1 {
        1
    } else {
        lines as nat
    }
}

fn spot_line(i: usize, s: &str) -> (r: String)
    ensures
        r@ == spot_url(spot_host(i as int), s@),
{
    let mut u = if i % 2 == 0 {
        String::from_str("wss://stream.binance.com:443")
    } else {
        String::from_str("wss://data-stream.binance.vision")
    };
    u.append("/stream?streams=");
    u.append(s);
    u.append("@depth@100ms/");
    u.append(s);
    u.append("@aggTrade");
    u
}

fn three(a: &str, b: &str, c: &str) -> (r: String)
    ensures
        r@ == a@ + b@ + c@,
{
    let mut s = String::from_str(a);
    s.append(b);
    s.append(c);
    s
}

impl Endpoints {
    /// Binance spot. The lines alternate hosts (diversity of network routes).
    pub fn spot(symbol: &str, lines: usize) -> (r: Self)
        requires
            lines < usize::MAX,
        ensures
            r.market.venue == Venue::Binance,
            r.market.kind == MarketKind::Spot,
            r.market.symbol@ == symbol@,
            r.depth_lines.deep_view() == Seq::new(
                line_count(lines),
                |i: int| spot_url(spot_host(i), lowercase(symbol@)),
            ),
            r.trade_lines.deep_view() == Seq::<Seq<char>>::empty(),
            r.depth_fallbacks.deep_view() == Seq::new(
                line_count(lines),
                |i: int| seq![spot_url(spot_host(i + 1), lowercase(symbol@))],
            ),
            r.rest_hosts.deep_view() == seq![
                "https://api.binance.com"@,
                "https://data-api.binance.vision"@,
            ],
            r.snapshot_path@ == "/api/v3/depth?symbol="@ + symbol@ + "&limit=5000"@,
            r.snapshot_limit == 5000,
            r.exchange_info_path@ == "/api/v3/exchangeInfo?symbol="@ + symbol@ + ""@,
    {
        let s = to_lowercase(symbol);
        let n: usize = if lines < 1 {
            1
        } else {
            lines
        };
        let mut depth_lines: Vec<String> = Vec::new();
        let mut depth_fallbacks: Vec<Vec<String>> = Vec::new();
        let mut i: usize = 0;
        while i < n
            invariant
                i <= n,
                n < usize::MAX,
                s@ == lowercase(symbol@),
                depth_lines.len() == i,
                depth_fallbacks.len() == i,
                forall|j: int|
                    0 <= j < i ==> (#[trigger] depth_lines[j])@ == spot_url(
                        spot_host(j),
                        lowercase(symbol@),
                    ),
                forall|j: int|
                    0 <= j < i ==> (#[trigger] depth_fallbacks[j]).deep_view() == seq![
                        spot_url(spot_host(j + 1), lowercase(symbol@)),
                    ],
            decreases n - i,
        {
            depth_lines.push(spot_line(i, s.as_str()));
            let mut alt: Vec<String> = Vec::new();
            alt.push(spot_line(i + 1, s.as_str()));
            assert(alt.deep_view() =~= seq![spot_url(spot_host(i + 1), lowercase(symbol@))]);
            depth_fallbacks.push(alt);
            i += 1;
        }
        assert(depth_lines.deep_view() =~= Seq::new(
            line_count(lines),
            |i: int| spot_url(spot_host(i), lowercase(symbol@)),
        ));
        assert(depth_fallbacks.deep_view() =~= Seq::new(
            line_count(lines),
            |i: int| seq![spot_url(spot_host(i + 1), lowercase(symbol@))],
        ));
        let trade_lines: Vec<String> = Vec::new();
        assert(trade_lines.deep_view() =~= Seq::<Seq<char>>::empty());
        let mut rest_hosts: Vec<String> = Vec::new();
        rest_hosts.push(String::from_str("https://api.binance.com"));
        rest_hosts.push(String::from_str("https://data-api.binance.vision"));
        assert(rest_hosts.deep_view() =~= seq![
            "https://api.binance.com"@,
            "https://data-api.binance.vision"@,
        ]);
        Endpoints {
            market: MarketId::new(Venue::Binance, MarketKind::Spot, symbol),
            depth_lines,
            trade_lines,
            depth_fallbacks,
            rest_hosts,
            snapshot_path: three("/api/v3/depth?symbol=", symbol, "&limit=5000"),
            snapshot_limit: 5000,
            exchange_info_path: three("/api/v3/exchangeInfo?symbol=", symbol, ""),
        }
    }

    /// Binance USD-margined perpetual: depth and trades go on separate connections.
    pub fn usdm_perp(symbol: &str, lines: usize) -> (r: Self)
        ensures
            r.market.venue == Venue::Binance,
            r.market.kind == MarketKind::Perp,
            r.market.symbol@ == symbol@,
            r.depth_lines.deep_view() == Seq::new(
                line_count(lines),
                |i: int|
                    "wss://fstream.binance.com/public/stream?streams="@ + lowercase(symbol@)
                        + "@depth@100ms"@,
            ),
            r.trade_lines.deep_view() == Seq::new(
                line_count(lines),
                |i: int|
                    "wss://fstream.binance.com/market/stream?streams="@ + lowercase(symbol@)
                        + "@aggTrade"@,
            ),
            r.depth_fallbacks.deep_view() == Seq::new(
                line_count(lines),
                |i: int| Seq::<Seq<char>>::empty(),
            ),
            r.rest_hosts.deep_view() == seq!["https://fapi.binance.com"@],
            r.snapshot_path@ == "/fapi/v1/depth?symbol="@ + symbol@ + "&limit=1000"@,
            r.snapshot_limit == 1000,
            r.exchange_info_path@ == "/fapi/v1/exchangeInfo"@,
    {
        let s = to_lowercase(symbol);
        let n: usize = if lines < 1 {
            1
        } else {
            lines
        };
        let mut depth_lines: Vec<String> = Vec::new();
        let mut trade_lines: Vec<String> = Vec::new();
        let mut depth_fallbacks: Vec<Vec<String>> = Vec::new();
        let mut i: usize = 0;
        while i < n
            invariant
                i <= n,
                s@ == lowercase(symbol@),
                depth_lines.len() == i,
                trade_lines.len() == i,
                depth_fallbacks.len() == i,
                forall|j: int|
                    0 <= j < i ==> (#[trigger] depth_lines[j])@
                        == "wss://fstream.binance.com/public/stream?streams="@ + lowercase(
                        symbol@,
                    ) + "@depth@100ms"@,
                forall|j: int|
                    0 <= j < i ==> (#[trigger] trade_lines[j])@
                        == "wss://fstream.binance.com/market/stream?streams="@ + lowercase(
                        symbol@,
                    ) + "@aggTrade"@,
                forall|j: int|
                    0 <= j < i ==> (#[trigger] depth_fallbacks[j]).deep_view() == Seq::<
                        Seq<char>,
                    >::empty(),
            decreases n - i,
        {
            depth_lines.push(
                three(
                    "wss://fstream.binance.com/public/stream?streams=",
                    s.as_str(),
                    "@depth@100ms",
                ),
            );
            trade_lines.push(
                three(
                    "wss://fstream.binance.com/market/stream?streams=",
                    s.as_str(),
                    "@aggTrade",
                ),
            );
            let none: Vec<String> = Vec::new();
            assert(none.deep_view() =~= Seq::<Seq<char>>::empty());
            depth_fallbacks.push(none);
            i += 1;
        }
        assert(depth_lines.deep_view() =~= Seq::new(
            line_count(lines),
            |i: int|
                "wss://fstream.binance.com/public/stream?streams="@ + lowercase(symbol@)
                    + "@depth@100ms"@,
        ));
        assert(trade_lines.deep_view() =~= Seq::new(
            line_count(lines),
            |i: int|
                "wss://fstream.binance.com/market/stream?streams="@ + lowercase(symbol@)
                    + "@aggTrade"@,
        ));
        assert(depth_fallbacks.deep_view() =~= Seq::new(
            line_count(lines),
            |i: int| Seq::<Seq<char>>::empty(),
        ));
        let mut rest_hosts: Vec<String> = Vec::new();
        rest_hosts.push(String::from_str("https://fapi.binance.com"));
        assert(rest_hosts.deep_view() =~= seq!["https://fapi.binance.com"@]);
        Endpoints {
            market: MarketId::new(Venue::Binance, MarketKind::Perp, symbol),
            depth_lines,
            trade_lines,
            depth_fallbacks,
            rest_hosts,
            snapshot_path: three("/fapi/v1/depth?symbol=", symbol, "&limit=1000"),
            snapshot_limit: 1000,
            exchange_info_path: String::from_str("/fapi/v1/exchangeInfo"),
        }
    }
}

/// A frame of a combined stream.
pub struct EnvelopeWire {
    /// Stream.
    pub stream: String,
    /// Raw payload.
    pub data: String,
}

/// What a [`EnvelopeWire`] holds.
#[verifier::ext_equal]
pub struct EnvelopeSeen {
    /// Stream.
    pub stream: Seq<char>,
    /// Raw payload.
    pub data: Seq<char>,
}

impl DeepView for EnvelopeWire {
    type V = EnvelopeSeen;

    open spec fn deep_view(&self) -> EnvelopeSeen {
        EnvelopeSeen {
            stream: self.stream.deep_view(),
            data: self.data.deep_view(),
        }
    }
}

/// The fields, in order.
pub open spec fn envelope_fields() -> Seq<Seq<char>> {
    seq!["stream"@, "data"@]
}

/// The frame that a text writes, or why it is refused.
pub open spec fn envelope_of(text: Seq<char>) -> Result<EnvelopeSeen, Seq<char>> {
    match record_of(text, envelope_fields(), 2) {
        Err(e) => Err(e),
        Ok(f) => {
            let stream = str_in(f, "stream"@);
            let data = raw_in(f, "data"@);
            if stream is Err {
                Err(stream->Err_0)
            } else if data is Err {
                Err(data->Err_0)
            } else {
                Ok(EnvelopeSeen { stream: stream->Ok_0, data: data->Ok_0 })
            }
        },
    }
}

/// Reads a frame of a combined stream.
pub fn read_envelope(text: &str) -> (r: Result<EnvelopeWire, String>)
    ensures
        seen(r) == envelope_of(text@),
{
    let fields = ["stream", "data"];
    assert(fields.deep_view() =~= envelope_fields());
    let f = match read_record(text, &fields, 2) {
        Ok(f) => f,
        Err(e) => return Err(e),
    };
    let stream = match get_str(&f, "stream") {
        Ok(v) => v,
        Err(e) => return Err(e),
    };
    let data = match get_raw(&f, "data") {
        Ok(v) => v,
        Err(e) => return Err(e),
    };
    Ok(EnvelopeWire { stream, data })
}

/// A depth message.
pub struct DepthWire {
    /// Time of the event, ms.
    pub event_time: u64,
    /// Time of the matching engine, ms.
    pub match_time: Option<u64>,
    /// First update id.
    pub first: u64,
    /// Last update id.
    pub last: u64,
    /// Last update id of the previous message.
    pub prev: Option<u64>,
    /// Bids: price and quantity.
    pub bids: Vec<(String, String)>,
    /// Asks: price and quantity.
    pub asks: Vec<(String, String)>,
}

/// What a [`DepthWire`] holds.
#[verifier::ext_equal]
pub struct DepthSeen {
    /// Time of the event, ms.
    pub event_time: u64,
    /// Time of the matching engine, ms.
    pub match_time: Option<u64>,
    /// First update id.
    pub first: u64,
    /// Last update id.
    pub last: u64,
    /// Last update id of the previous message.
    pub prev: Option<u64>,
    /// Bids: price and quantity.
    pub bids: Seq<(Seq<char>, Seq<char>)>,
    /// Asks: price and quantity.
    pub asks: Seq<(Seq<char>, Seq<char>)>,
}

impl DeepView for DepthWire {
    type V = DepthSeen;

    open spec fn deep_view(&self) -> DepthSeen {
        DepthSeen {
            event_time: self.event_time.deep_view(),
            match_time: self.match_time.deep_view(),
            first: self.first.deep_view(),
            last: self.last.deep_view(),
            prev: self.prev.deep_view(),
            bids: self.bids.deep_view(),
            asks: self.asks.deep_view(),
        }
    }
}

/// The fields, in order.
pub open spec fn depth_fields() -> Seq<Seq<char>> {
    seq!["E"@, "T"@, "U"@, "u"@, "pu"@, "b"@, "a"@]
}

/// The depth message that a text writes, or why it is refused.
pub open spec fn depth_of(text: Seq<char>) -> Result<DepthSeen, Seq<char>> {
    match record_of(text, depth_fields(), 7) {
        Err(e) => Err(e),
        Ok(f) => {
            let event_time = u64_in(f, "E"@);
            let match_time = opt_u64_in(f, "T"@);
            let first = u64_in(f, "U"@);
            let last = u64_in(f, "u"@);
            let prev = opt_u64_in(f, "pu"@);
            let bids = match list_in(f, "b"@) {
                Ok(items) => pairs_of(items),
                Err(e) => Err(e),
            };
            let asks = match list_in(f, "a"@) {
                Ok(items) => pairs_of(items),
                Err(e) => Err(e),
            };
            if event_time is Err {
                Err(event_time->Err_0)
            } else if match_time is Err {
                Err(match_time->Err_0)
            } else if first is Err {
                Err(first->Err_0)
            } else if last is Err {
                Err(last->Err_0)
            } else if prev is Err {
                Err(prev->Err_0)
            } else if bids is Err {
                Err(bids->Err_0)
            } else if asks is Err {
                Err(asks->Err_0)
            } else {
                Ok(
                    DepthSeen {
                        event_time: event_time->Ok_0,
                        match_time: match_time->Ok_0,
                        first: first->Ok_0,
                        last: last->Ok_0,
                        prev: prev->Ok_0,
                        bids: bids->Ok_0,
                        asks: asks->Ok_0,
                    },
                )
            }
        },
    }
}

/// Reads a depth message.
pub fn read_depth(text: &str) -> (r: Result<DepthWire, String>)
    ensures
        seen(r) == depth_of(text@),
{
    let fields = ["E", "T", "U", "u", "pu", "b", "a"];
    assert(fields.deep_view() =~= depth_fields());
    let f = match read_record(text, &fields, 7) {
        Ok(f) => f,
        Err(e) => return Err(e),
    };
    let event_time = match get_u64(&f, "E") {
        Ok(v) => v,
        Err(e) => return Err(e),
    };
    let match_time = match get_opt_u64(&f, "T") {
        Ok(v) => v,
        Err(e) => return Err(e),
    };
    let first = match get_u64(&f, "U") {
        Ok(v) => v,
        Err(e) => return Err(e),
    };
    let last = match get_u64(&f, "u") {
        Ok(v) => v,
        Err(e) => return Err(e),
    };
    let prev = match get_opt_u64(&f, "pu") {
        Ok(v) => v,
        Err(e) => return Err(e),
    };
    let bids = match get_list(&f, "b") {
        Ok(items) => match read_pairs(&items) {
            Ok(v) => v,
            Err(e) => return Err(e),
        },
        Err(e) => return Err(e),
    };
    let asks = match get_list(&f, "a") {
        Ok(items) => match read_pairs(&items) {
            Ok(v) => v,
            Err(e) => return Err(e),
        },
        Err(e) => return Err(e),
    };
    Ok(DepthWire { event_time, match_time, first, last, prev, bids, asks })
}

/// An aggregated trade message.
pub struct AggWire {
    /// Time of the event, ms.
    pub event_time: u64,
    /// Id.
    pub agg_id: u64,
    /// Price.
    pub px: String,
    /// Quantity.
    pub qty: String,
    /// Quantity against normal orders.
    pub qty_normal: Option<String>,
    /// First trade id.
    pub first: u64,
    /// Last trade id.
    pub last: u64,
    /// Time of the trade, ms.
    pub trade_time: u64,
    /// The buyer is the maker.
    pub buyer_is_maker: bool,
}

/// What a [`AggWire`] holds.
#[verifier::ext_equal]
pub struct AggSeen {
    /// Time of the event, ms.
    pub event_time: u64,
    /// Id.
    pub agg_id: u64,
    /// Price.
    pub px: Seq<char>,
    /// Quantity.
    pub qty: Seq<char>,
    /// Quantity against normal orders.
    pub qty_normal: Option<Seq<char>>,
    /// First trade id.
    pub first: u64,
    /// Last trade id.
    pub last: u64,
    /// Time of the trade, ms.
    pub trade_time: u64,
    /// The buyer is the maker.
    pub buyer_is_maker: bool,
}

impl DeepView for AggWire {
    type V = AggSeen;

    open spec fn deep_view(&self) -> AggSeen {
        AggSeen {
            event_time: self.event_time.deep_view(),
            agg_id: self.agg_id.deep_view(),
            px: self.px.deep_view(),
            qty: self.qty.deep_view(),
            qty_normal: self.qty_normal.deep_view(),
            first: self.first.deep_view(),
            last: self.last.deep_view(),
            trade_time: self.trade_time.deep_view(),
            buyer_is_maker: self.buyer_is_maker.deep_view(),
        }
    }
}

/// The fields, in order.
pub open spec fn agg_fields() -> Seq<Seq<char>> {
    seq!["E"@, "a"@, "p"@, "q"@, "nq"@, "f"@, "l"@, "T"@, "m"@]
}

/// The aggregated trade that a text writes, or why it is refused.
pub open spec fn agg_of(text: Seq<char>) -> Result<AggSeen, Seq<char>> {
    match record_of(text, agg_fields(), 9) {
        Err(e) => Err(e),
        Ok(f) => {
            let event_time = u64_in(f, "E"@);
            let agg_id = u64_in(f, "a"@);
            let px = str_in(f, "p"@);
            let qty = str_in(f, "q"@);
            let qty_normal = opt_str_in(f, "nq"@);
            let first = u64_in(f, "f"@);
            let last = u64_in(f, "l"@);
            let trade_time = u64_in(f, "T"@);
            let buyer_is_maker = bool_in(f, "m"@);
            if event_time is Err {
                Err(event_time->Err_0)
            } else if agg_id is Err {
                Err(agg_id->Err_0)
            } else if px is Err {
                Err(px->Err_0)
            } else if qty is Err {
                Err(qty->Err_0)
            } else if qty_normal is Err {
                Err(qty_normal->Err_0)
            } else if first is Err {
                Err(first->Err_0)
            } else if last is Err {
                Err(last->Err_0)
            } else if trade_time is Err {
                Err(trade_time->Err_0)
            } else if buyer_is_maker is Err {
                Err(buyer_is_maker->Err_0)
            } else {
                Ok(
                    AggSeen {
                        event_time: event_time->Ok_0,
                        agg_id: agg_id->Ok_0,
                        px: px->Ok_0,
                        qty: qty->Ok_0,
                        qty_normal: qty_normal->Ok_0,
                        first: first->Ok_0,
                        last: last->Ok_0,
                        trade_time: trade_time->Ok_0,
                        buyer_is_maker: buyer_is_maker->Ok_0,
                    },
                )
            }
        },
    }
}

/// Reads an aggregated trade message.
pub fn read_agg(text: &str) -> (r: Result<AggWire, String>)
    ensures
        seen(r) == agg_of(text@),
{
    let fields = ["E", "a", "p", "q", "nq", "f", "l", "T", "m"];
    assert(fields.deep_view() =~= agg_fields());
    let f = match read_record(text, &fields, 9) {
        Ok(f) => f,
        Err(e) => return Err(e),
    };
    let event_time = match get_u64(&f, "E") {
        Ok(v) => v,
        Err(e) => return Err(e),
    };
    let agg_id = match get_u64(&f, "a") {
        Ok(v) => v,
        Err(e) => return Err(e),
    };
    let px = match get_str(&f, "p") {
        Ok(v) => v,
        Err(e) => return Err(e),
    };
    let qty = match get_str(&f, "q") {
        Ok(v) => v,
        Err(e) => return Err(e),
    };
    let qty_normal = match get_opt_str(&f, "nq") {
        Ok(v) => v,
        Err(e) => return Err(e),
    };
    let first = match get_u64(&f, "f") {
        Ok(v) => v,
        Err(e) => return Err(e),
    };
    let last = match get_u64(&f, "l") {
        Ok(v) => v,
        Err(e) => return Err(e),
    };
    let trade_time = match get_u64(&f, "T") {
        Ok(v) => v,
        Err(e) => return Err(e),
    };
    let buyer_is_maker = match get_bool(&f, "m") {
        Ok(v) => v,
        Err(e) => return Err(e),
    };
    Ok(AggWire { event_time, agg_id, px, qty, qty_normal, first, last, trade_time, buyer_is_maker })
}

/// The REST reply with the depth.
pub struct SnapshotWire {
    /// Last update id.
    pub last_update_id: u64,
    /// Time of the event, ms.
    pub event_time: Option<u64>,
    /// Bids: price and quantity.
    pub bids: Vec<(String, String)>,
    /// Asks: price and quantity.
    pub asks: Vec<(String, String)>,
}

/// What a [`SnapshotWire`] holds.
#[verifier::ext_equal]
pub struct SnapshotSeen {
    /// Last update id.
    pub last_update_id: u64,
    /// Time of the event, ms.
    pub event_time: Option<u64>,
    /// Bids: price and quantity.
    pub bids: Seq<(Seq<char>, Seq<char>)>,
    /// Asks: price and quantity.
    pub asks: Seq<(Seq<char>, Seq<char>)>,
}

impl DeepView for SnapshotWire {
    type V = SnapshotSeen;

    open spec fn deep_view(&self) -> SnapshotSeen {
        SnapshotSeen {
            last_update_id: self.last_update_id.deep_view(),
            event_time: self.event_time.deep_view(),
            bids: self.bids.deep_view(),
            asks: self.asks.deep_view(),
        }
    }
}

/// The fields, in order.
pub open spec fn snapshot_fields() -> Seq<Seq<char>> {
    seq!["lastUpdateId"@, "E"@, "bids"@, "asks"@]
}

/// The depth reply that a text writes, or why it is refused.
pub open spec fn snapshot_of(text: Seq<char>) -> Result<SnapshotSeen, Seq<char>> {
    match record_of(text, snapshot_fields(), 4) {
        Err(e) => Err(e),
        Ok(f) => {
            let last_update_id = u64_in(f, "lastUpdateId"@);
            let event_time = opt_u64_in(f, "E"@);
            let bids = match list_in(f, "bids"@) {
                Ok(items) => pairs_of(items),
                Err(e) => Err(e),
            };
            let asks = match list_in(f, "asks"@) {
                Ok(items) => pairs_of(items),
                Err(e) => Err(e),
            };
            if last_update_id is Err {
                Err(last_update_id->Err_0)
            } else if event_time is Err {
                Err(event_time->Err_0)
            } else if bids is Err {
                Err(bids->Err_0)
            } else if asks is Err {
                Err(asks->Err_0)
            } else {
                Ok(
                    SnapshotSeen {
                        last_update_id: last_update_id->Ok_0,
                        event_time: event_time->Ok_0,
                        bids: bids->Ok_0,
                        asks: asks->Ok_0,
                    },
                )
            }
        },
    }
}

/// Reads the REST reply with the depth.
pub fn read_snapshot(text: &str) -> (r: Result<SnapshotWire, String>)
    ensures
        seen(r) == snapshot_of(text@),
{
    let fields = ["lastUpdateId", "E", "bids", "asks"];
    assert(fields.deep_view() =~= snapshot_fields());
    let f = match read_record(text, &fields, 4) {
        Ok(f) => f,
        Err(e) => return Err(e),
    };
    let last_update_id = match get_u64(&f, "lastUpdateId") {
        Ok(v) => v,
        Err(e) => return Err(e),
    };
    let event_time = match get_opt_u64(&f, "E") {
        Ok(v) => v,
        Err(e) => return Err(e),
    };
    let bids = match get_list(&f, "bids") {
        Ok(items) => match read_pairs(&items) {
            Ok(v) => v,
            Err(e) => return Err(e),
        },
        Err(e) => return Err(e),
    };
    let asks = match get_list(&f, "asks") {
        Ok(items) => match read_pairs(&items) {
            Ok(v) => v,
            Err(e) => return Err(e),
        },
        Err(e) => return Err(e),
    };
    Ok(SnapshotWire { last_update_id, event_time, bids, asks })
}

/// A symbol of the exchange information.
pub struct SymWire {
    /// Symbol.
    pub symbol: String,
    /// Raw filters.
    pub filters: Vec<String>,
}

/// What a [`SymWire`] holds.
#[verifier::ext_equal]
pub struct SymSeen {
    /// Symbol.
    pub symbol: Seq<char>,
    /// Raw filters.
    pub filters: Seq<Seq<char>>,
}

impl DeepView for SymWire {
    type V = SymSeen;

    open spec fn deep_view(&self) -> SymSeen {
        SymSeen {
            symbol: self.symbol.deep_view(),
            filters: self.filters.deep_view(),
        }
    }
}

/// The fields, in order.
pub open spec fn sym_fields() -> Seq<Seq<char>> {
    seq!["symbol"@, "filters"@]
}

/// The symbol that a text writes, or why it is refused.
pub open spec fn sym_of(text: Seq<char>) -> Result<SymSeen, Seq<char>> {
    match record_of(text, sym_fields(), 2) {
        Err(e) => Err(e),
        Ok(f) => {
            let symbol = string_in(f, "symbol"@);
            let filters = list_in(f, "filters"@);
            if symbol is Err {
                Err(symbol->Err_0)
            } else if filters is Err {
                Err(filters->Err_0)
            } else {
                Ok(SymSeen { symbol: symbol->Ok_0, filters: filters->Ok_0 })
            }
        },
    }
}

/// Reads a symbol.
pub fn read_sym(text: &str) -> (r: Result<SymWire, String>)
    ensures
        seen(r) == sym_of(text@),
{
    let fields = ["symbol", "filters"];
    assert(fields.deep_view() =~= sym_fields());
    let f = match read_record(text, &fields, 2) {
        Ok(f) => f,
        Err(e) => return Err(e),
    };
    let symbol = match get_string(&f, "symbol") {
        Ok(v) => v,
        Err(e) => return Err(e),
    };
    let filters = match get_list(&f, "filters") {
        Ok(v) => v,
        Err(e) => return Err(e),
    };
    Ok(SymWire { symbol, filters })
}

/// All the symbols, or the message of the first that fails.
pub open spec fn syms_of(items: Seq<Seq<char>>) -> Result<Seq<SymSeen>, Seq<char>>
    decreases items.len(),
{
    if items.len() == 0 {
        Ok(Seq::empty())
    } else {
        match syms_of(items.drop_last()) {
            Err(e) => Err(e),
            Ok(s) => match sym_of(items.last()) {
                Err(e) => Err(e),
                Ok(x) => Ok(s.push(x)),
            },
        }
    }
}

proof fn lemma_syms_of_stops(items: Seq<Seq<char>>, i: int)
    requires
        0 <= i <= items.len(),
        syms_of(items.take(i)) is Err,
    ensures
        syms_of(items) == syms_of(items.take(i)),
    decreases items.len() - i,
{
    if i < items.len() {
        assert(items.take(i + 1).drop_last() =~= items.take(i));
        lemma_syms_of_stops(items, i + 1);
    } else {
        assert(items.take(i) =~= items);
    }
}

/// Reads them all; the first that fails decides.
pub fn read_syms(items: &Vec<String>) -> (r: Result<Vec<SymWire>, String>)
    ensures
        seen(r) == syms_of(items.deep_view()),
{
    let ghost d = items.deep_view();
    let mut out: Vec<SymWire> = Vec::new();
    let mut i: usize = 0;
    assert(d.take(0) =~= Seq::<Seq<char>>::empty());
    assert(out.deep_view() =~= Seq::<SymSeen>::empty());
    while i < items.len()
        invariant
            i <= items.len(),
            d == items.deep_view(),
            d.len() == items.len(),
            syms_of(d.take(i as int)) == Ok::<Seq<SymSeen>, Seq<char>>(out.deep_view()),
        decreases items.len() - i,
    {
        proof {
            assert(d.take(i + 1).drop_last() =~= d.take(i as int));
            assert(d.take(i + 1).last() == items[i as int]@);
        }
        match read_sym(items[i].as_str()) {
            Ok(x) => {
                let ghost before = out.deep_view();
                out.push(x);
                assert(out.deep_view() =~= before.push(x.deep_view()));
            },
            Err(e) => {
                proof {
                    lemma_syms_of_stops(d, i + 1);
                }
                return Err(e);
            },
        }
        i += 1;
    }
    assert(d.take(i as int) =~= d);
    Ok(out)
}

/// The exchange information.
pub struct InfoWire {
    /// Symbols.
    pub symbols: Vec<SymWire>,
}

/// What a [`InfoWire`] holds.
#[verifier::ext_equal]
pub struct InfoSeen {
    /// Symbols.
    pub symbols: Seq<SymSeen>,
}

impl DeepView for InfoWire {
    type V = InfoSeen;

    open spec fn deep_view(&self) -> InfoSeen {
        InfoSeen {
            symbols: self.symbols.deep_view(),
        }
    }
}

/// The fields, in order.
pub open spec fn info_fields() -> Seq<Seq<char>> {
    seq!["symbols"@]
}

/// The exchange information that a text writes, or why it is refused.
pub open spec fn info_of(text: Seq<char>) -> Result<InfoSeen, Seq<char>> {
    match record_of(text, info_fields(), 1) {
        Err(e) => Err(e),
        Ok(f) => {
            let symbols = match list_in(f, "symbols"@) {
                Ok(items) => syms_of(items),
                Err(e) => Err(e),
            };
            if symbols is Err {
                Err(symbols->Err_0)
            } else {
                Ok(InfoSeen { symbols: symbols->Ok_0 })
            }
        },
    }
}

/// Reads the exchange information.
pub fn read_info(text: &str) -> (r: Result<InfoWire, String>)
    ensures
        seen(r) == info_of(text@),
{
    let fields = ["symbols"];
    assert(fields.deep_view() =~= info_fields());
    let f = match read_record(text, &fields, 1) {
        Ok(f) => f,
        Err(e) => return Err(e),
    };
    let symbols = match get_list(&f, "symbols") {
        Ok(items) => match read_syms(&items) {
            Ok(v) => v,
            Err(e) => return Err(e),
        },
        Err(e) => return Err(e),
    };
    Ok(InfoWire { symbols })
}

/// A protocol error.
pub enum WireError {
    /// Invalid JSON, a missing field, or a level that is refused.
    Json(String),
    /// A decimal that is not valid or does not fit the scale.
    Fixed(ParseFixedError),
    /// Exchange information without the symbol or without its filters.
    Spec(String),
}

/// What a [`WireError`] holds.
pub enum WireFault {
    /// Invalid JSON, a missing field, or a level that is refused.
    Json(Seq<char>),
    /// A decimal that is not valid or does not fit the scale.
    Fixed(ParseFixedError),
    /// Exchange information without the symbol or without its filters.
    Spec(Seq<char>),
}

impl View for WireError {
    type V = WireFault;

    open spec fn view(&self) -> WireFault {
        match self {
            WireError::Json(s) => WireFault::Json(s@),
            WireError::Fixed(e) => WireFault::Fixed(*e),
            WireError::Spec(s) => WireFault::Spec(s@),
        }
    }
}

impl WireFault {
    /// The message of the error.
    pub open spec fn text(self) -> Seq<char> {
        match self {
            WireFault::Json(s) => "json: "@ + s,
            WireFault::Fixed(e) => "decimal: "@ + e.text(),
            WireFault::Spec(s) => "exchangeInfo: "@ + s,
        }
    }
}

impl WireError {
    /// The message of the error.
    pub fn message(&self) -> (r: String)
        ensures
            r@ == self@.text(),
    {
        match self {
            WireError::Json(s) => {
                let mut m = String::from_str("json: ");
                m.append(s.as_str());
                m
            },
            WireError::Fixed(e) => {
                let mut m = String::from_str("decimal: ");
                m.append(e.message());
                m
            },
            WireError::Spec(s) => {
                let mut m = String::from_str("exchangeInfo: ");
                m.append(s.as_str());
                m
            },
        }
    }
}

/// The diff of a depth message, or why it is refused.
pub open spec fn depth_event(w: DepthSeen, rx: RxStamp) -> Result<EventView, WireFault> {
    let bids = levels_of(w.bids);
    let asks = levels_of(w.asks);
    if bids is Err {
        Err(WireFault::Json(bids->Err_0))
    } else if asks is Err {
        Err(WireFault::Json(asks->Err_0))
    } else {
        Ok(
            EventView::Depth(
                DiffView {
                    first_id: w.first,
                    last_id: w.last,
                    prev_last_id: w.prev,
                    exch_ts_ms: w.event_time,
                    match_ts_ms: w.match_time,
                    bids: bids->Ok_0,
                    asks: asks->Ok_0,
                    rx,
                },
            ),
        )
    }
}

/// The trade of a message, or why it is refused.
pub open spec fn agg_event(w: AggSeen, rx: RxStamp) -> Result<EventView, WireFault> {
    let normal = match w.qty_normal {
        Some(t) => match fixed8(t) {
            Ok(v) => Ok(Some(Qty(v))),
            Err(e) => Err(e),
        },
        None => Ok(None),
    };
    if fixed8(w.px) is Err {
        Err(WireFault::Fixed(fixed8(w.px)->Err_0))
    } else if fixed8(w.qty) is Err {
        Err(WireFault::Fixed(fixed8(w.qty)->Err_0))
    } else if normal is Err {
        Err(WireFault::Fixed(normal->Err_0))
    } else {
        Ok(
            EventView::Trade(
                AggTrade {
                    agg_id: w.agg_id,
                    first_trade_id: w.first,
                    last_trade_id: w.last,
                    px: Px(fixed8(w.px)->Ok_0),
                    qty: Qty(fixed8(w.qty)->Ok_0),
                    qty_normal: normal->Ok_0,
                    aggressor: if w.buyer_is_maker {
                        Aggressor::Sell
                    } else {
                        Aggressor::Buy
                    },
                    trade_ts_ms: w.trade_time,
                    exch_ts_ms: w.event_time,
                    rx,
                },
            ),
        )
    }
}

/// The event of a frame with its envelope read, or why it is refused.
pub open spec fn envelope_event(env: EnvelopeSeen, rx: RxStamp) -> Result<EventView, WireFault> {
    if within(env.stream, "@depth"@) {
        match depth_of(env.data) {
            Ok(w) => depth_event(w, rx),
            Err(e) => Err(WireFault::Json(e)),
        }
    } else if ends(env.stream, "@aggTrade"@) {
        match agg_of(env.data) {
            Ok(w) => agg_event(w, rx),
            Err(e) => Err(WireFault::Json(e)),
        }
    } else {
        Ok(EventView::Ignored)
    }
}

/// The event of a frame, or why it is refused.
pub open spec fn frame_event(text: Seq<char>, rx: RxStamp) -> Result<EventView, WireFault> {
    match envelope_of(text) {
        Ok(env) => envelope_event(env, rx),
        Err(e) => Err(WireFault::Json(e)),
    }
}

/// An answer with its event or its fault.
pub open spec fn event_seen(r: Result<MarketEvent, WireError>) -> Result<EventView, WireFault> {
    match r {
        Ok(e) => Ok(e@),
        Err(e) => Err(e@),
    }
}

/// The diff of a depth message.
pub fn read_depth_event(w: DepthWire, rx: RxStamp) -> (r: Result<MarketEvent, WireError>)
    ensures
        event_seen(r) == depth_event(w.deep_view(), rx),
{
    let bids = match read_levels(&w.bids) {
        Ok(v) => v,
        Err(e) => return Err(WireError::Json(e)),
    };
    let asks = match read_levels(&w.asks) {
        Ok(v) => v,
        Err(e) => return Err(WireError::Json(e)),
    };
    Ok(
        MarketEvent::Depth(
            DepthDiff {
                first_id: w.first,
                last_id: w.last,
                prev_last_id: w.prev,
                exch_ts_ms: w.event_time,
                match_ts_ms: w.match_time,
                bids,
                asks,
                rx,
            },
        ),
    )
}

/// The trade of a message.
pub fn read_agg_event(w: AggWire, rx: RxStamp) -> (r: Result<MarketEvent, WireError>)
    ensures
        event_seen(r) == agg_event(w.deep_view(), rx),
{
    let px = match Px::parse(w.px.as_str()) {
        Ok(v) => v,
        Err(e) => return Err(WireError::Fixed(e)),
    };
    let qty = match Qty::parse(w.qty.as_str()) {
        Ok(v) => v,
        Err(e) => return Err(WireError::Fixed(e)),
    };
    let qty_normal = match &w.qty_normal {
        Some(t) => match Qty::parse(t.as_str()) {
            Ok(v) => Some(v),
            Err(e) => return Err(WireError::Fixed(e)),
        },
        None => None,
    };
    Ok(
        MarketEvent::Trade(
            AggTrade {
                agg_id: w.agg_id,
                first_trade_id: w.first,
                last_trade_id: w.last,
                px,
                qty,
                qty_normal,
                aggressor: if w.buyer_is_maker {
                    Aggressor::Sell
                } else {
                    Aggressor::Buy
                },
                trade_ts_ms: w.trade_time,
                exch_ts_ms: w.event_time,
                rx,
            },
        ),
    )
}

/// Reads a frame of a combined stream.
pub fn parse_frame(text: &str, rx: RxStamp) -> (r: Result<MarketEvent, WireError>)
    ensures
        event_seen(r) == frame_event(text@, rx),
{
    let env = match read_envelope(text) {
        Ok(e) => e,
        Err(e) => return Err(WireError::Json(e)),
    };
    if contains(env.stream.as_str(), "@depth") {
        match read_depth(env.data.as_str()) {
            Ok(w) => read_depth_event(w, rx),
            Err(e) => Err(WireError::Json(e)),
        }
    } else if ends_with(env.stream.as_str(), "@aggTrade") {
        match read_agg(env.data.as_str()) {
            Ok(w) => read_agg_event(w, rx),
            Err(e) => Err(WireError::Json(e)),
        }
    } else {
        Ok(MarketEvent::Ignored)
    }
}

/// The snapshot of a depth reply, or why it is refused.
pub open spec fn snapshot_in(w: SnapshotSeen, limit: usize, rx: RxStamp) -> Result<
    SnapView,
    WireFault,
> {
    let bids = levels_of(w.bids);
    let asks = levels_of(w.asks);
    if bids is Err {
        Err(WireFault::Json(bids->Err_0))
    } else if asks is Err {
        Err(WireFault::Json(asks->Err_0))
    } else {
        Ok(
            SnapView {
                last_update_id: w.last_update_id,
                limit: limit as nat,
                bids: bids->Ok_0,
                asks: asks->Ok_0,
                exch_ts_ms: w.event_time,
                rolling: false,
                rx,
            },
        )
    }
}

/// The snapshot of a depth reply.
pub fn read_snapshot_reply(w: SnapshotWire, limit: usize, rx: RxStamp) -> (r: Result<
    DepthSnapshot,
    WireError,
>)
    ensures
        snapshot_in(w.deep_view(), limit, rx) == (match r {
            Ok(s) => Ok(s@),
            Err(e) => Err(e@),
        }),
{
    let bids = match read_levels(&w.bids) {
        Ok(v) => v,
        Err(e) => return Err(WireError::Json(e)),
    };
    let asks = match read_levels(&w.asks) {
        Ok(v) => v,
        Err(e) => return Err(WireError::Json(e)),
    };
    Ok(
        DepthSnapshot {
            last_update_id: w.last_update_id,
            limit,
            rolling: false,
            bids,
            asks,
            exch_ts_ms: w.event_time,
            rx,
        },
    )
}

/// Reads the REST reply with the depth.
pub fn parse_snapshot(text: &str, limit: usize, rx: RxStamp) -> (r: Result<
    DepthSnapshot,
    WireError,
>)
    ensures
        (match snapshot_of(text@) {
            Ok(w) => snapshot_in(w, limit, rx),
            Err(e) => Err(WireFault::Json(e)),
        }) == (match r {
            Ok(s) => Ok(s@),
            Err(e) => Err(e@),
        }),
{
    match read_snapshot(text) {
        Ok(w) => read_snapshot_reply(w, limit, rx),
        Err(e) => Err(WireError::Json(e)),
    }
}

/// What matters of a filter: its type, and the tick and step that it may give.
pub struct FilterWire {
    /// Type of the filter.
    pub kind: Option<String>,
    /// Tick of the price.
    pub tick: Option<String>,
    /// Step of the quantity.
    pub step: Option<String>,
}

/// What a [`FilterWire`] holds.
#[verifier::ext_equal]
pub struct FilterSeen {
    /// Type of the filter.
    pub kind: Option<Seq<char>>,
    /// Tick of the price.
    pub tick: Option<Seq<char>>,
    /// Step of the quantity.
    pub step: Option<Seq<char>>,
}

impl DeepView for FilterWire {
    type V = FilterSeen;

    open spec fn deep_view(&self) -> FilterSeen {
        FilterSeen {
            kind: self.kind.deep_view(),
            tick: self.tick.deep_view(),
            step: self.step.deep_view(),
        }
    }
}

/// The text of a field, if it is one.
pub open spec fn text_field(f: Seq<(Seq<char>, Seq<char>)>, name: Seq<char>) -> Option<Seq<char>> {
    match string_in(f, name) {
        Ok(t) => Some(t),
        Err(_) => None,
    }
}

/// The filter that a value writes; one that is no object says nothing.
pub open spec fn filter_of(text: Seq<char>) -> FilterSeen {
    match json_object(text) {
        Ok(f) => FilterSeen {
            kind: text_field(f, "filterType"@),
            tick: text_field(f, "tickSize"@),
            step: text_field(f, "stepSize"@),
        },
        Err(_) => FilterSeen { kind: None, tick: None, step: None },
    }
}

/// The filters that some values write.
pub open spec fn filters_of(items: Seq<Seq<char>>) -> Seq<FilterSeen> {
    Seq::new(items.len(), |i: int| filter_of(items[i]))
}

fn get_text(f: &Vec<(String, String)>, name: &str) -> (r: Option<String>)
    ensures
        r.deep_view() == text_field(f.deep_view(), name@),
{
    match get_string(f, name) {
        Ok(t) => Some(t),
        Err(_) => None,
    }
}

fn read_filter(text: &str) -> (r: FilterWire)
    ensures
        r.deep_view() == filter_of(text@),
{
    match read_object(text) {
        Ok(f) => FilterWire {
            kind: get_text(&f, "filterType"),
            tick: get_text(&f, "tickSize"),
            step: get_text(&f, "stepSize"),
        },
        Err(_) => FilterWire { kind: None, tick: None, step: None },
    }
}

fn read_filters(items: &Vec<String>) -> (r: Vec<FilterWire>)
    ensures
        r.deep_view() == filters_of(items.deep_view()),
{
    let ghost d = items.deep_view();
    let mut out: Vec<FilterWire> = Vec::new();
    let mut i: usize = 0;
    while i < items.len()
        invariant
            i <= items.len(),
            d == items.deep_view(),
            out.len() == i,
            forall|j: int| 0 <= j < i ==> (#[trigger] out[j]).deep_view() == filter_of(d[j]),
        decreases items.len() - i,
    {
        out.push(read_filter(items[i].as_str()));
        i += 1;
    }
    assert(out.deep_view() =~= filters_of(d));
    out
}

/// The first filter of a type.
pub open spec fn filter_named(v: Seq<FilterSeen>, kind: Seq<char>) -> Option<FilterSeen>
    decreases v.len(),
{
    if v.len() == 0 {
        None
    } else if v[0].kind == Some(kind) {
        Some(v[0])
    } else {
        filter_named(v.skip(1), kind)
    }
}

/// The value that a filter gives under a name, or why there is none.
pub open spec fn limit_of(v: Option<Seq<char>>, name: Seq<char>) -> Result<i64, WireFault> {
    match v {
        None => Err(WireFault::Spec(name + " ausente"@)),
        Some(t) => match fixed8(t) {
            Ok(x) => Ok(x),
            Err(e) => Err(WireFault::Spec(name + ": "@ + e.text())),
        },
    }
}

/// Tick and step of the filters of a symbol, or why there is none.
pub open spec fn rules_of(v: Seq<FilterSeen>) -> Result<(i64, i64), WireFault> {
    let tick = limit_of(
        match filter_named(v, "PRICE_FILTER"@) {
            Some(f) => f.tick,
            None => None,
        },
        "PRICE_FILTER.tickSize"@,
    );
    let step = limit_of(
        match filter_named(v, "LOT_SIZE"@) {
            Some(f) => f.step,
            None => None,
        },
        "LOT_SIZE.stepSize"@,
    );
    if tick is Err {
        Err(tick->Err_0)
    } else if step is Err {
        Err(step->Err_0)
    } else {
        Ok((tick->Ok_0, step->Ok_0))
    }
}

/// The first symbol with the given name.
pub open spec fn symbol_named(v: Seq<SymSeen>, name: Seq<char>) -> Option<SymSeen>
    decreases v.len(),
{
    if v.len() == 0 {
        None
    } else if v[0].symbol == name {
        Some(v[0])
    } else {
        symbol_named(v.skip(1), name)
    }
}

/// Tick and step of a symbol out of the exchange information, or why there is none.
pub open spec fn instrument_rules(text: Seq<char>, symbol: Seq<char>) -> Result<
    (i64, i64),
    WireFault,
> {
    match info_of(text) {
        Err(e) => Err(WireFault::Json(e)),
        Ok(info) => match symbol_named(info.symbols, symbol) {
            None => Err(WireFault::Spec("símbolo "@ + symbol + " ausente"@)),
            Some(s) => rules_of(filters_of(s.filters)),
        },
    }
}

fn find_filter(v: &Vec<FilterWire>, kind: &str) -> (r: Option<usize>)
    ensures
        match r {
            Some(i) => i < v.len() && filter_named(v.deep_view(), kind@) == Some(
                v[i as int].deep_view(),
            ),
            None => filter_named(v.deep_view(), kind@) is None,
        },
{
    let ghost d = v.deep_view();
    let mut i: usize = 0;
    assert(d.skip(0) =~= d);
    while i < v.len()
        invariant
            i <= v.len(),
            d == v.deep_view(),
            d.len() == v.len(),
            filter_named(d, kind@) == filter_named(d.skip(i as int), kind@),
        decreases v.len() - i,
    {
        assert(d.skip(i as int)[0] == v[i as int].deep_view());
        let same = match &v[i].kind {
            Some(k) => same_text(k.as_str(), kind),
            None => false,
        };
        if same {
            return Some(i);
        }
        assert(d.skip(i as int).skip(1) =~= d.skip(i + 1));
        i += 1;
    }
    None
}

fn limit(v: Option<&String>, name: &str) -> (r: Result<i64, WireError>)
    ensures
        limit_of(
            match v {
                Some(t) => Some(t@),
                None => None,
            },
            name@,
        ) == (match r {
            Ok(x) => Ok(x),
            Err(e) => Err(e@),
        }),
{
    match v {
        None => {
            let mut s = String::from_str(name);
            s.append(" ausente");
            Err(WireError::Spec(s))
        },
        Some(t) => match parse_fixed8(t.as_str()) {
            Ok(x) => Ok(x),
            Err(e) => {
                let mut s = String::from_str(name);
                s.append(": ");
                s.append(e.message());
                Err(WireError::Spec(s))
            },
        },
    }
}

/// Tick and step of the filters of a symbol.
pub fn read_rules(v: &Vec<FilterWire>) -> (r: Result<(i64, i64), WireError>)
    ensures
        rules_of(v.deep_view()) == (match r {
            Ok(x) => Ok(x),
            Err(e) => Err(e@),
        }),
{
    let tick = match find_filter(v, "PRICE_FILTER") {
        Some(i) => match &v[i].tick {
            Some(t) => limit(Some(t), "PRICE_FILTER.tickSize"),
            None => limit(None, "PRICE_FILTER.tickSize"),
        },
        None => limit(None, "PRICE_FILTER.tickSize"),
    };
    let tick = match tick {
        Ok(x) => x,
        Err(e) => return Err(e),
    };
    let step = match find_filter(v, "LOT_SIZE") {
        Some(i) => match &v[i].step {
            Some(t) => limit(Some(t), "LOT_SIZE.stepSize"),
            None => limit(None, "LOT_SIZE.stepSize"),
        },
        None => limit(None, "LOT_SIZE.stepSize"),
    };
    match step {
        Ok(x) => Ok((tick, x)),
        Err(e) => Err(e),
    }
}

/// Takes tick and step out of the exchange information.
pub fn parse_instrument(text: &str, market: &MarketId) -> (r: Result<InstrumentSpec, WireError>)
    ensures
        match r {
            Ok(spec) => {
                &&& instrument_rules(text@, market.symbol@) == Ok::<(i64, i64), WireFault>(
                    (spec.tick.0, spec.step.0),
                )
                &&& spec.base_per_contract == Qty(SCALE)
                &&& spec.market.text() == market.text()
            },
            Err(e) => instrument_rules(text@, market.symbol@) == Err::<(i64, i64), WireFault>(e@),
        },
{
    let info = match read_info(text) {
        Ok(i) => i,
        Err(e) => return Err(WireError::Json(e)),
    };
    let ghost d = info.symbols.deep_view();
    let mut i: usize = 0;
    assert(d.skip(0) =~= d);
    while i < info.symbols.len()
        invariant
            i <= info.symbols.len(),
            d == info.symbols.deep_view(),
            d.len() == info.symbols.len(),
            info_of(text@) == Ok::<InfoSeen, Seq<char>>(info.deep_view()),
            symbol_named(d, market.symbol@) == symbol_named(d.skip(i as int), market.symbol@),
        decreases info.symbols.len() - i,
    {
        assert(d.skip(i as int)[0] == info.symbols[i as int].deep_view());
        if same_text(info.symbols[i].symbol.as_str(), market.symbol.as_str()) {
            let filters = read_filters(&info.symbols[i].filters);
            return match read_rules(&filters) {
                Ok((tick, step)) => Ok(
                    InstrumentSpec {
                        market: MarketId::new(market.venue, market.kind, market.symbol.as_str()),
                        tick: Px::from_raw(tick),
                        step: Qty::from_raw(step),
                        base_per_contract: Qty::from_raw(SCALE),
                    },
                ),
                Err(e) => Err(e),
            };
        }
        assert(d.skip(i as int).skip(1) =~= d.skip(i + 1));
        i += 1;
    }
    Err(WireError::Spec(three("símbolo ", market.symbol.as_str(), " ausente")))
}

/// Binance protocol (spot and perpetuals): the URL already subscribes, the server sends
/// the ping, and each frame is an event.
#[derive(Clone, Copy)]
pub struct BinanceProtocol;

impl Protocol for BinanceProtocol {
    type State = ();

    open spec fn state(&self) -> () {
        ()
    }

    open spec fn connect_next(s: ()) -> ((), Seq<Seq<char>>) {
        ((), Seq::empty())
    }

    open spec fn resubscribe_next(s: ()) -> ((), Option<Seq<Seq<char>>>) {
        ((), None)
    }

    open spec fn heartbeat(s: ()) -> Option<(u64, Seq<char>)> {
        None
    }

    open spec fn parse_next(s: (), text: Seq<char>, rx: RxStamp) -> Parsed<()> {
        match frame_event(text, rx) {
            Ok(e) => Parsed { state: (), events: seq![e], outcome: Ok(()) },
            Err(e) => Parsed { state: (), events: Seq::empty(), outcome: Err(e.text()) },
        }
    }

    open spec fn resync_next(s: ()) -> ((), bool) {
        ((), false)
    }

    fn on_connect(&mut self) -> (r: Vec<String>) {
        let v: Vec<String> = Vec::new();
        assert(v.deep_view() =~= Seq::<Seq<char>>::empty());
        v
    }

    fn resubscribe(&mut self) -> (r: Option<Vec<String>>) {
        None
    }

    fn keepalive(&self) -> (r: Option<(u64, &'static str)>) {
        None
    }

    fn parse(&mut self, text: &str, rx: RxStamp, out: &mut Vec<MarketEvent>) -> (r: Result<
        (),
        String,
    >) {
        let ghost was = out@;
        assert(events_of(out@) + Seq::<EventView>::empty() =~= events_of(out@));
        match parse_frame(text, rx) {
            Ok(e) => {
                out.push(e);
                assert(events_of(out@) =~= events_of(was) + seq![e@]);
                Ok(())
            },
            Err(e) => Err(e.message()),
        }
    }

    fn take_resync(&mut self) -> (r: bool) {
        false
    }
}

/// Why a REST request failed: the caller decides how long to wait by the cause.
pub enum RestError {
    /// Status 429: the weight per minute was exceeded.
    RateLimited {
        /// Wait that the server suggests, s.
        retry_after: Option<u64>,
    },
    /// Status 418: the address is banned for a while.
    Banned {
        /// Wait that the server suggests, s.
        retry_after: Option<u64>,
    },
    /// Status 451: regional block.
    Restricted {
        /// Host that blocked.
        host: String,
    },
    /// Another HTTP status.
    Http {
        /// Status.
        status: u16,
    },
    /// Network, TLS or timeout.
    Transport(String),
    /// Invalid reply.
    Wire(WireError),
}

/// What a [`RestError`] holds.
pub enum RestFault {
    /// Status 429.
    RateLimited(Option<u64>),
    /// Status 418.
    Banned(Option<u64>),
    /// Status 451.
    Restricted(Seq<char>),
    /// Another HTTP status.
    Http(u16),
    /// Network, TLS or timeout.
    Transport(Seq<char>),
    /// Invalid reply.
    Wire(WireFault),
}

impl View for RestError {
    type V = RestFault;

    open spec fn view(&self) -> RestFault {
        match self {
            RestError::RateLimited { retry_after } => RestFault::RateLimited(*retry_after),
            RestError::Banned { retry_after } => RestFault::Banned(*retry_after),
            RestError::Restricted { host } => RestFault::Restricted(host@),
            RestError::Http { status } => RestFault::Http(*status),
            RestError::Transport(s) => RestFault::Transport(s@),
            RestError::Wire(e) => RestFault::Wire(e@),
        }
    }
}

/// A wait of some seconds, as it is shown.
pub open spec fn wait_text(w: Option<u64>) -> Seq<char> {
    match w {
        None => "None"@,
        Some(s) => if s == 0 {
            "Some(0ns)"@
        } else {
            "Some("@ + int_text(s as int) + "s)"@
        },
    }
}

impl RestFault {
    /// The message of the error.
    pub open spec fn text(self) -> Seq<char> {
        match self {
            RestFault::RateLimited(w) => "rate limit (429), reintentar en "@ + wait_text(w),
            RestFault::Banned(w) => "IP baneada (418), reintentar en "@ + wait_text(w),
            RestFault::Restricted(h) => "bloqueo regional (451) en "@ + h,
            RestFault::Http(c) => "HTTP "@ + int_text(c as int),
            RestFault::Transport(s) => "transporte: "@ + s,
            RestFault::Wire(e) => e.text(),
        }
    }

    /// Another host may do better.
    pub open spec fn elsewhere(self) -> bool {
        self is Restricted || self is Transport || self is Http
    }

    /// How long to wait before the next try, ms.
    pub open spec fn wait_ms(self, backoff_ms: u64) -> int {
        match self {
            RestFault::RateLimited(Some(s)) => s * 1000,
            RestFault::RateLimited(None) => 60_000,
            RestFault::Banned(Some(s)) => s * 1000,
            RestFault::Banned(None) => 300_000,
            _ => backoff_ms as int,
        }
    }
}

/// The fault of an HTTP status, with the host and the wait that the server suggests.
pub open spec fn status_fault(code: u16, retry_after: Option<Seq<char>>, host: Seq<char>) -> RestFault {
    let wait = match retry_after {
        Some(t) => unsigned(t),
        None => None,
    };
    if code == 429 {
        RestFault::RateLimited(wait)
    } else if code == 418 {
        RestFault::Banned(wait)
    } else if code == 451 {
        RestFault::Restricted(host)
    } else {
        RestFault::Http(code)
    }
}

fn wait_shown(w: Option<u64>) -> (r: String)
    ensures
        r@ == wait_text(w),
{
    match w {
        None => String::from_str("None"),
        Some(s) => if s == 0 {
            String::from_str("Some(0ns)")
        } else {
            let mut t = String::from_str("Some(");
            push_int(&mut t, s as i128);
            t.append("s)");
            t
        },
    }
}

fn seconds_ms(s: u64) -> (r: u64)
    ensures
        r == crate::num::clamp_u64(s * 1000),
{
    crate::num::to_u64(s as i128 * 1000)
}

impl RestError {
    /// The error of an HTTP status, with its `Retry-After` header.
    pub fn of_status(code: u16, retry_after: Option<&str>, host: &str) -> (r: Self)
        ensures
            r@ == status_fault(
                code,
                match retry_after {
                    Some(t) => Some(t@),
                    None => None,
                },
                host@,
            ),
    {
        let wait = match retry_after {
            Some(t) => parse_u64(t),
            None => None,
        };
        if code == 429 {
            RestError::RateLimited { retry_after: wait }
        } else if code == 418 {
            RestError::Banned { retry_after: wait }
        } else if code == 451 {
            RestError::Restricted { host: String::from_str(host) }
        } else {
            RestError::Http { status: code }
        }
    }

    /// The message of the error.
    pub fn message(&self) -> (r: String)
        ensures
            r@ == self@.text(),
    {
        match self {
            RestError::RateLimited { retry_after } => {
                let mut m = String::from_str("rate limit (429), reintentar en ");
                m.append(wait_shown(*retry_after).as_str());
                m
            },
            RestError::Banned { retry_after } => {
                let mut m = String::from_str("IP baneada (418), reintentar en ");
                m.append(wait_shown(*retry_after).as_str());
                m
            },
            RestError::Restricted { host } => {
                let mut m = String::from_str("bloqueo regional (451) en ");
                m.append(host.as_str());
                m
            },
            RestError::Http { status } => {
                let mut m = String::from_str("HTTP ");
                push_int(&mut m, *status as i128);
                m
            },
            RestError::Transport(s) => {
                let mut m = String::from_str("transporte: ");
                m.append(s.as_str());
                m
            },
            RestError::Wire(e) => e.message(),
        }
    }

    /// Whether the next host is worth a try.
    pub fn try_next_host(&self) -> (r: bool)
        ensures
            r == self@.elsewhere(),
    {
        match self {
            RestError::Restricted { .. } => true,
            RestError::Transport(_) => true,
            RestError::Http { .. } => true,
            _ => false,
        }
    }

    /// How long to wait before the next try, ms.
    pub fn wait_ms(&self, backoff_ms: u64) -> (r: u64)
        ensures
            r == crate::num::clamp_u64(self@.wait_ms(backoff_ms)),
    {
        match self {
            RestError::RateLimited { retry_after } => match retry_after {
                Some(s) => seconds_ms(*s),
                None => 60_000,
            },
            RestError::Banned { retry_after } => match retry_after {
                Some(s) => seconds_ms(*s),
                None => 300_000,
            },
            _ => backoff_ms,
        }
    }
}

/// The used weight that a header gives.
pub fn weight_of(header: &str) -> (r: Option<u32>)
    ensures
        r == (match unsigned(header@) {
            Some(v) => if v <= u32::MAX {
                Some(v as u32)
            } else {
                None
            },
            None => None,
        }),
{
    match parse_u64(header) {
        Some(v) => if v <= 0xffff_ffff {
            Some(v as u32)
        } else {
            None
        },
        None => None,
    }
}

/// What to do next with a list of hosts.
pub enum HostStep {
    /// Ask the host at this position.
    Ask(usize),
    /// This is the outcome.
    Done(Result<String, RestError>),
}

/// The first step over `hosts` hosts.
pub fn first_host(hosts: usize) -> (r: HostStep)
    ensures
        hosts > 0 ==> r == HostStep::Ask(0),
        hosts == 0 ==> (r matches HostStep::Done(Err(e)) && e@ == RestFault::Transport(
            "sin hosts configurados"@,
        )),
{
    if hosts > 0 {
        HostStep::Ask(0)
    } else {
        HostStep::Done(Err(RestError::Transport(String::from_str("sin hosts configurados"))))
    }
}

/// The step after host `i` answered: an error that another host may not have goes on,
/// any other outcome is the last.
pub fn next_host(hosts: usize, i: usize, answer: Result<String, RestError>) -> (r: HostStep)
    requires
        i < hosts,
    ensures
        match answer {
            Ok(_) => r == HostStep::Done(answer),
            Err(e) => if e@.elsewhere() && i + 1 < hosts {
                r == HostStep::Ask((i + 1) as usize)
            } else {
                r == HostStep::Done(answer)
            },
        },
{
    match answer {
        Ok(t) => HostStep::Done(Ok(t)),
        Err(e) => if e.try_next_host() && i + 1 < hosts {
            HostStep::Ask(i + 1)
        } else {
            HostStep::Done(Err(e))
        },
    }
}

} // verus!

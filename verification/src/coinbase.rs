//! Coinbase Advanced Trade connector: protocol and parsing into normalised events.
//!
//! The sequence number counts all the channels of one connection, so each connection
//! checks its own continuity: after a gap it gives no depth until a new snapshot. The
//! depth is numbered by a contiguous counter that never goes back. The side of a trade
//! is the maker's, so the aggressor is the opposite one.

use crate::event::{
    AggTrade, Aggressor, DepthDiff, DepthSnapshot, DiffView, EventView, Level, MarketEvent,
    RxStamp, SnapView,
};
use crate::fixed::{fixed8, Px, Qty};
use crate::json::{
    get_list_or_empty, get_opt_str, get_opt_u64, get_str, json_quoted, list_or_empty_in, opt_str_in,
    opt_u64_in, quoted, seen, str_in,
};
use crate::net::{events_of, said, Parsed, Protocol};
use crate::num::clamp_u64;
use crate::quote::{level_of, read_level};
use crate::record::{read_record, record_of};
use crate::text::{parse_u64, same_text, unsigned};
use crate::time::{rfc3339_ms, stamp_ms};
use vstd::prelude::*;
use vstd::string::StringExecFns;

verus! {

/// Public URL.
pub const WS_URL: &'static str = "wss://advanced-trade-ws.coinbase.com";

/// The change of a level.
pub struct UpdateWire {
    /// Side.
    pub side: String,
    /// Time of the change.
    pub event_time: String,
    /// Price.
    pub price_level: String,
    /// Absolute quantity.
    pub new_quantity: String,
}

/// What a [`UpdateWire`] holds.
#[verifier::ext_equal]
pub struct UpdateSeen {
    /// Side.
    pub side: Seq<char>,
    /// Time of the change.
    pub event_time: Seq<char>,
    /// Price.
    pub price_level: Seq<char>,
    /// Absolute quantity.
    pub new_quantity: Seq<char>,
}

impl DeepView for UpdateWire {
    type V = UpdateSeen;

    open spec fn deep_view(&self) -> UpdateSeen {
        UpdateSeen {
            side: self.side.deep_view(),
            event_time: self.event_time.deep_view(),
            price_level: self.price_level.deep_view(),
            new_quantity: self.new_quantity.deep_view(),
        }
    }
}

/// The fields, in order.
pub open spec fn update_fields() -> Seq<Seq<char>> {
    seq!["side"@, "event_time"@, "price_level"@, "new_quantity"@]
}

/// The change of a level that a text writes, or why it is refused.
pub open spec fn update_of(text: Seq<char>) -> Result<UpdateSeen, Seq<char>> {
    match record_of(text, update_fields(), 4) {
        Err(e) => Err(e),
        Ok(f) => {
            let side = str_in(f, "side"@);
            let event_time = str_in(f, "event_time"@);
            let price_level = str_in(f, "price_level"@);
            let new_quantity = str_in(f, "new_quantity"@);
            if side is Err {
                Err(side->Err_0)
            } else if event_time is Err {
                Err(event_time->Err_0)
            } else if price_level is Err {
                Err(price_level->Err_0)
            } else if new_quantity is Err {
                Err(new_quantity->Err_0)
            } else {
                Ok(
                    UpdateSeen {
                        side: side->Ok_0,
                        event_time: event_time->Ok_0,
                        price_level: price_level->Ok_0,
                        new_quantity: new_quantity->Ok_0,
                    },
                )
            }
        },
    }
}

/// Reads the change of a level.
pub fn read_update(text: &str) -> (r: Result<UpdateWire, String>)
    ensures
        seen(r) == update_of(text@),
{
    let fields = ["side", "event_time", "price_level", "new_quantity"];
    assert(fields.deep_view() =~= update_fields());
    let f = match read_record(text, &fields, 4) {
        Ok(f) => f,
        Err(e) => return Err(e),
    };
    let side = match get_str(&f, "side") {
        Ok(v) => v,
        Err(e) => return Err(e),
    };
    let event_time = match get_str(&f, "event_time") {
        Ok(v) => v,
        Err(e) => return Err(e),
    };
    let price_level = match get_str(&f, "price_level") {
        Ok(v) => v,
        Err(e) => return Err(e),
    };
    let new_quantity = match get_str(&f, "new_quantity") {
        Ok(v) => v,
        Err(e) => return Err(e),
    };
    Ok(UpdateWire { side, event_time, price_level, new_quantity })
}

/// All the changes, or the message of the first that fails.
pub open spec fn updates_of(items: Seq<Seq<char>>) -> Result<Seq<UpdateSeen>, Seq<char>>
    decreases items.len(),
{
    if items.len() == 0 {
        Ok(Seq::empty())
    } else {
        match updates_of(items.drop_last()) {
            Err(e) => Err(e),
            Ok(s) => match update_of(items.last()) {
                Err(e) => Err(e),
                Ok(x) => Ok(s.push(x)),
            },
        }
    }
}

proof fn lemma_updates_of_stops(items: Seq<Seq<char>>, i: int)
    requires
        0 <= i <= items.len(),
        updates_of(items.take(i)) is Err,
    ensures
        updates_of(items) == updates_of(items.take(i)),
    decreases items.len() - i,
{
    if i < items.len() {
        assert(items.take(i + 1).drop_last() =~= items.take(i));
        lemma_updates_of_stops(items, i + 1);
    } else {
        assert(items.take(i) =~= items);
    }
}

/// Reads them all; the first that fails decides.
pub fn read_updates(items: &Vec<String>) -> (r: Result<Vec<UpdateWire>, String>)
    ensures
        seen(r) == updates_of(items.deep_view()),
{
    let ghost d = items.deep_view();
    let mut out: Vec<UpdateWire> = Vec::new();
    let mut i: usize = 0;
    assert(d.take(0) =~= Seq::<Seq<char>>::empty());
    assert(out.deep_view() =~= Seq::<UpdateSeen>::empty());
    while i < items.len()
        invariant
            i <= items.len(),
            d == items.deep_view(),
            d.len() == items.len(),
            updates_of(d.take(i as int)) == Ok::<Seq<UpdateSeen>, Seq<char>>(out.deep_view()),
        decreases items.len() - i,
    {
        proof {
            assert(d.take(i + 1).drop_last() =~= d.take(i as int));
            assert(d.take(i + 1).last() == items[i as int]@);
        }
        match read_update(items[i].as_str()) {
            Ok(x) => {
                let ghost before = out.deep_view();
                out.push(x);
                assert(out.deep_view() =~= before.push(x.deep_view()));
            },
            Err(e) => {
                proof {
                    lemma_updates_of_stops(d, i + 1);
                }
                return Err(e);
            },
        }
        i += 1;
    }
    assert(d.take(i as int) =~= d);
    Ok(out)
}

/// A trade.
pub struct TradeWire {
    /// Id.
    pub trade_id: String,
    /// Price.
    pub price: String,
    /// Quantity.
    pub size: String,
    /// Time.
    pub time: String,
    /// Side of the maker.
    pub side: String,
}

/// What a [`TradeWire`] holds.
#[verifier::ext_equal]
pub struct TradeSeen {
    /// Id.
    pub trade_id: Seq<char>,
    /// Price.
    pub price: Seq<char>,
    /// Quantity.
    pub size: Seq<char>,
    /// Time.
    pub time: Seq<char>,
    /// Side of the maker.
    pub side: Seq<char>,
}

impl DeepView for TradeWire {
    type V = TradeSeen;

    open spec fn deep_view(&self) -> TradeSeen {
        TradeSeen {
            trade_id: self.trade_id.deep_view(),
            price: self.price.deep_view(),
            size: self.size.deep_view(),
            time: self.time.deep_view(),
            side: self.side.deep_view(),
        }
    }
}

/// The fields, in order.
pub open spec fn trade_fields() -> Seq<Seq<char>> {
    seq!["trade_id"@, "price"@, "size"@, "time"@, "side"@]
}

/// The trade that a text writes, or why it is refused.
pub open spec fn trade_of(text: Seq<char>) -> Result<TradeSeen, Seq<char>> {
    match record_of(text, trade_fields(), 5) {
        Err(e) => Err(e),
        Ok(f) => {
            let trade_id = str_in(f, "trade_id"@);
            let price = str_in(f, "price"@);
            let size = str_in(f, "size"@);
            let time = str_in(f, "time"@);
            let side = str_in(f, "side"@);
            if trade_id is Err {
                Err(trade_id->Err_0)
            } else if price is Err {
                Err(price->Err_0)
            } else if size is Err {
                Err(size->Err_0)
            } else if time is Err {
                Err(time->Err_0)
            } else if side is Err {
                Err(side->Err_0)
            } else {
                Ok(
                    TradeSeen {
                        trade_id: trade_id->Ok_0,
                        price: price->Ok_0,
                        size: size->Ok_0,
                        time: time->Ok_0,
                        side: side->Ok_0,
                    },
                )
            }
        },
    }
}

/// Reads a trade.
pub fn read_trade(text: &str) -> (r: Result<TradeWire, String>)
    ensures
        seen(r) == trade_of(text@),
{
    let fields = ["trade_id", "price", "size", "time", "side"];
    assert(fields.deep_view() =~= trade_fields());
    let f = match read_record(text, &fields, 5) {
        Ok(f) => f,
        Err(e) => return Err(e),
    };
    let trade_id = match get_str(&f, "trade_id") {
        Ok(v) => v,
        Err(e) => return Err(e),
    };
    let price = match get_str(&f, "price") {
        Ok(v) => v,
        Err(e) => return Err(e),
    };
    let size = match get_str(&f, "size") {
        Ok(v) => v,
        Err(e) => return Err(e),
    };
    let time = match get_str(&f, "time") {
        Ok(v) => v,
        Err(e) => return Err(e),
    };
    let side = match get_str(&f, "side") {
        Ok(v) => v,
        Err(e) => return Err(e),
    };
    Ok(TradeWire { trade_id, price, size, time, side })
}

/// All the trades, or the message of the first that fails.
pub open spec fn trades_of(items: Seq<Seq<char>>) -> Result<Seq<TradeSeen>, Seq<char>>
    decreases items.len(),
{
    if items.len() == 0 {
        Ok(Seq::empty())
    } else {
        match trades_of(items.drop_last()) {
            Err(e) => Err(e),
            Ok(s) => match trade_of(items.last()) {
                Err(e) => Err(e),
                Ok(x) => Ok(s.push(x)),
            },
        }
    }
}

proof fn lemma_trades_of_stops(items: Seq<Seq<char>>, i: int)
    requires
        0 <= i <= items.len(),
        trades_of(items.take(i)) is Err,
    ensures
        trades_of(items) == trades_of(items.take(i)),
    decreases items.len() - i,
{
    if i < items.len() {
        assert(items.take(i + 1).drop_last() =~= items.take(i));
        lemma_trades_of_stops(items, i + 1);
    } else {
        assert(items.take(i) =~= items);
    }
}

/// Reads them all; the first that fails decides.
pub fn read_trades(items: &Vec<String>) -> (r: Result<Vec<TradeWire>, String>)
    ensures
        seen(r) == trades_of(items.deep_view()),
{
    let ghost d = items.deep_view();
    let mut out: Vec<TradeWire> = Vec::new();
    let mut i: usize = 0;
    assert(d.take(0) =~= Seq::<Seq<char>>::empty());
    assert(out.deep_view() =~= Seq::<TradeSeen>::empty());
    while i < items.len()
        invariant
            i <= items.len(),
            d == items.deep_view(),
            d.len() == items.len(),
            trades_of(d.take(i as int)) == Ok::<Seq<TradeSeen>, Seq<char>>(out.deep_view()),
        decreases items.len() - i,
    {
        proof {
            assert(d.take(i + 1).drop_last() =~= d.take(i as int));
            assert(d.take(i + 1).last() == items[i as int]@);
        }
        match read_trade(items[i].as_str()) {
            Ok(x) => {
                let ghost before = out.deep_view();
                out.push(x);
                assert(out.deep_view() =~= before.push(x.deep_view()));
            },
            Err(e) => {
                proof {
                    lemma_trades_of_stops(d, i + 1);
                }
                return Err(e);
            },
        }
        i += 1;
    }
    assert(d.take(i as int) =~= d);
    Ok(out)
}

/// An event of a message.
pub struct ItemWire {
    /// Snapshot or update.
    pub kind: Option<String>,
    /// Changes of levels.
    pub updates: Vec<UpdateWire>,
    /// Trades.
    pub trades: Vec<TradeWire>,
}

/// What a [`ItemWire`] holds.
#[verifier::ext_equal]
pub struct ItemSeen {
    /// Snapshot or update.
    pub kind: Option<Seq<char>>,
    /// Changes of levels.
    pub updates: Seq<UpdateSeen>,
    /// Trades.
    pub trades: Seq<TradeSeen>,
}

impl DeepView for ItemWire {
    type V = ItemSeen;

    open spec fn deep_view(&self) -> ItemSeen {
        ItemSeen {
            kind: self.kind.deep_view(),
            updates: self.updates.deep_view(),
            trades: self.trades.deep_view(),
        }
    }
}

/// The fields, in order.
pub open spec fn item_fields() -> Seq<Seq<char>> {
    seq!["type"@, "updates"@, "trades"@]
}

/// The event that a text writes, or why it is refused.
pub open spec fn item_of(text: Seq<char>) -> Result<ItemSeen, Seq<char>> {
    match record_of(text, item_fields(), 0) {
        Err(e) => Err(e),
        Ok(f) => {
            let kind = opt_str_in(f, "type"@);
            let updates = match list_or_empty_in(f, "updates"@) {
                Ok(items) => updates_of(items),
                Err(e) => Err(e),
            };
            let trades = match list_or_empty_in(f, "trades"@) {
                Ok(items) => trades_of(items),
                Err(e) => Err(e),
            };
            if kind is Err {
                Err(kind->Err_0)
            } else if updates is Err {
                Err(updates->Err_0)
            } else if trades is Err {
                Err(trades->Err_0)
            } else {
                Ok(ItemSeen { kind: kind->Ok_0, updates: updates->Ok_0, trades: trades->Ok_0 })
            }
        },
    }
}

/// Reads an event.
pub fn read_item(text: &str) -> (r: Result<ItemWire, String>)
    ensures
        seen(r) == item_of(text@),
{
    let fields = ["type", "updates", "trades"];
    assert(fields.deep_view() =~= item_fields());
    let f = match read_record(text, &fields, 0) {
        Ok(f) => f,
        Err(e) => return Err(e),
    };
    let kind = match get_opt_str(&f, "type") {
        Ok(v) => v,
        Err(e) => return Err(e),
    };
    let updates = match get_list_or_empty(&f, "updates") {
        Ok(items) => match read_updates(&items) {
            Ok(v) => v,
            Err(e) => return Err(e),
        },
        Err(e) => return Err(e),
    };
    let trades = match get_list_or_empty(&f, "trades") {
        Ok(items) => match read_trades(&items) {
            Ok(v) => v,
            Err(e) => return Err(e),
        },
        Err(e) => return Err(e),
    };
    Ok(ItemWire { kind, updates, trades })
}

/// All the events, or the message of the first that fails.
pub open spec fn items_of(items: Seq<Seq<char>>) -> Result<Seq<ItemSeen>, Seq<char>>
    decreases items.len(),
{
    if items.len() == 0 {
        Ok(Seq::empty())
    } else {
        match items_of(items.drop_last()) {
            Err(e) => Err(e),
            Ok(s) => match item_of(items.last()) {
                Err(e) => Err(e),
                Ok(x) => Ok(s.push(x)),
            },
        }
    }
}

proof fn lemma_items_of_stops(items: Seq<Seq<char>>, i: int)
    requires
        0 <= i <= items.len(),
        items_of(items.take(i)) is Err,
    ensures
        items_of(items) == items_of(items.take(i)),
    decreases items.len() - i,
{
    if i < items.len() {
        assert(items.take(i + 1).drop_last() =~= items.take(i));
        lemma_items_of_stops(items, i + 1);
    } else {
        assert(items.take(i) =~= items);
    }
}

/// Reads them all; the first that fails decides.
pub fn read_items(items: &Vec<String>) -> (r: Result<Vec<ItemWire>, String>)
    ensures
        seen(r) == items_of(items.deep_view()),
{
    let ghost d = items.deep_view();
    let mut out: Vec<ItemWire> = Vec::new();
    let mut i: usize = 0;
    assert(d.take(0) =~= Seq::<Seq<char>>::empty());
    assert(out.deep_view() =~= Seq::<ItemSeen>::empty());
    while i < items.len()
        invariant
            i <= items.len(),
            d == items.deep_view(),
            d.len() == items.len(),
            items_of(d.take(i as int)) == Ok::<Seq<ItemSeen>, Seq<char>>(out.deep_view()),
        decreases items.len() - i,
    {
        proof {
            assert(d.take(i + 1).drop_last() =~= d.take(i as int));
            assert(d.take(i + 1).last() == items[i as int]@);
        }
        match read_item(items[i].as_str()) {
            Ok(x) => {
                let ghost before = out.deep_view();
                out.push(x);
                assert(out.deep_view() =~= before.push(x.deep_view()));
            },
            Err(e) => {
                proof {
                    lemma_items_of_stops(d, i + 1);
                }
                return Err(e);
            },
        }
        i += 1;
    }
    assert(d.take(i as int) =~= d);
    Ok(out)
}

/// The envelope of a message.
pub struct EnvelopeWire {
    /// Channel.
    pub channel: Option<String>,
    /// Sequence of the connection.
    pub sequence_num: Option<u64>,
    /// Events.
    pub events: Vec<ItemWire>,
    /// Kind of a control message.
    pub kind: Option<String>,
    /// Text of a control message.
    pub message: Option<String>,
}

/// What a [`EnvelopeWire`] holds.
#[verifier::ext_equal]
pub struct EnvelopeSeen {
    /// Channel.
    pub channel: Option<Seq<char>>,
    /// Sequence of the connection.
    pub sequence_num: Option<u64>,
    /// Events.
    pub events: Seq<ItemSeen>,
    /// Kind of a control message.
    pub kind: Option<Seq<char>>,
    /// Text of a control message.
    pub message: Option<Seq<char>>,
}

impl DeepView for EnvelopeWire {
    type V = EnvelopeSeen;

    open spec fn deep_view(&self) -> EnvelopeSeen {
        EnvelopeSeen {
            channel: self.channel.deep_view(),
            sequence_num: self.sequence_num.deep_view(),
            events: self.events.deep_view(),
            kind: self.kind.deep_view(),
            message: self.message.deep_view(),
        }
    }
}

/// The fields, in order.
pub open spec fn envelope_fields() -> Seq<Seq<char>> {
    seq!["channel"@, "sequence_num"@, "events"@, "type"@, "message"@]
}

/// The envelope that a text writes, or why it is refused.
pub open spec fn envelope_of(text: Seq<char>) -> Result<EnvelopeSeen, Seq<char>> {
    match record_of(text, envelope_fields(), 0) {
        Err(e) => Err(e),
        Ok(f) => {
            let channel = opt_str_in(f, "channel"@);
            let sequence_num = opt_u64_in(f, "sequence_num"@);
            let events = match list_or_empty_in(f, "events"@) {
                Ok(items) => items_of(items),
                Err(e) => Err(e),
            };
            let kind = opt_str_in(f, "type"@);
            let message = opt_str_in(f, "message"@);
            if channel is Err {
                Err(channel->Err_0)
            } else if sequence_num is Err {
                Err(sequence_num->Err_0)
            } else if events is Err {
                Err(events->Err_0)
            } else if kind is Err {
                Err(kind->Err_0)
            } else if message is Err {
                Err(message->Err_0)
            } else {
                Ok(
                    EnvelopeSeen {
                        channel: channel->Ok_0,
                        sequence_num: sequence_num->Ok_0,
                        events: events->Ok_0,
                        kind: kind->Ok_0,
                        message: message->Ok_0,
                    },
                )
            }
        },
    }
}

/// Reads the envelope of a message.
pub fn read_envelope(text: &str) -> (r: Result<EnvelopeWire, String>)
    ensures
        seen(r) == envelope_of(text@),
{
    let fields = ["channel", "sequence_num", "events", "type", "message"];
    assert(fields.deep_view() =~= envelope_fields());
    let f = match read_record(text, &fields, 0) {
        Ok(f) => f,
        Err(e) => return Err(e),
    };
    let channel = match get_opt_str(&f, "channel") {
        Ok(v) => v,
        Err(e) => return Err(e),
    };
    let sequence_num = match get_opt_u64(&f, "sequence_num") {
        Ok(v) => v,
        Err(e) => return Err(e),
    };
    let events = match get_list_or_empty(&f, "events") {
        Ok(items) => match read_items(&items) {
            Ok(v) => v,
            Err(e) => return Err(e),
        },
        Err(e) => return Err(e),
    };
    let kind = match get_opt_str(&f, "type") {
        Ok(v) => v,
        Err(e) => return Err(e),
    };
    let message = match get_opt_str(&f, "message") {
        Ok(v) => v,
        Err(e) => return Err(e),
    };
    Ok(EnvelopeWire { channel, sequence_num, events, kind, message })
}

/// What a [`CoinbaseProtocol`] holds.
#[verifier::ext_equal]
pub struct CoinbaseState {
    /// Product.
    pub product: Seq<char>,
    /// This line feeds the book.
    pub depth: bool,
    /// Last sequence number of the connection.
    pub last_seq: Option<u64>,
    /// Id of the last depth event given.
    pub counter: u64,
    /// No depth is given until a snapshot.
    pub awaiting: bool,
    /// A new snapshot is asked for.
    pub resync: bool,
}

/// Coinbase protocol of a product on a line (state per connection).
pub struct CoinbaseProtocol {
    product: String,
    depth: bool,
    last_seq: Option<u64>,
    counter: u64,
    awaiting: bool,
    resync: bool,
}

/// The message for a stamp that cannot be read.
pub open spec fn bad_stamp(t: Seq<char>) -> Seq<char> {
    "fecha inválida: "@ + t
}

/// The state after the sequence number of a message: a jump voids the depth.
pub open spec fn sequence_next(s: CoinbaseState, seq: Option<u64>) -> CoinbaseState {
    match seq {
        None => s,
        Some(n) => {
            let gap = s.last_seq is Some && n != s.last_seq->0 + 1;
            CoinbaseState {
                last_seq: Some(n),
                awaiting: s.awaiting || gap,
                resync: if gap {
                    s.depth
                } else {
                    s.resync
                },
                ..s
            }
        },
    }
}

/// Bids, asks and latest time of some changes.
#[verifier::ext_equal]
pub struct Sides {
    /// Bids.
    pub bids: Seq<Level>,
    /// Asks.
    pub asks: Seq<Level>,
    /// Latest time, ms.
    pub ts: u64,
}

/// The sides with one more change, or why it is refused.
pub open spec fn side_next(s: Sides, u: UpdateSeen) -> Result<Sides, Seq<char>> {
    let l = level_of((u.price_level, u.new_quantity));
    let t = stamp_ms(u.event_time);
    if l is Err {
        Err(l->Err_0)
    } else if t is None {
        Err(bad_stamp(u.event_time))
    } else {
        let ts = if t->0 > s.ts {
            t->0 as u64
        } else {
            s.ts
        };
        if u.side == "bid"@ {
            Ok(Sides { bids: s.bids.push(l->Ok_0), ts, ..s })
        } else if u.side == "offer"@ || u.side == "ask"@ {
            Ok(Sides { asks: s.asks.push(l->Ok_0), ts, ..s })
        } else {
            Err("lado desconocido: "@ + u.side)
        }
    }
}

/// The sides of some changes, or why the first that fails is refused.
pub open spec fn sides_of(v: Seq<UpdateSeen>) -> Result<Sides, Seq<char>>
    decreases v.len(),
{
    if v.len() == 0 {
        Ok(Sides { bids: Seq::empty(), asks: Seq::empty(), ts: 0 })
    } else {
        match sides_of(v.drop_last()) {
            Err(e) => Err(e),
            Ok(s) => side_next(s, v.last()),
        }
    }
}

/// The state with the next depth id.
pub open spec fn counted(s: CoinbaseState) -> CoinbaseState {
    CoinbaseState { counter: clamp_u64(s.counter + 1) as u64, ..s }
}

/// What an event of the book does.
pub open spec fn depth_next(s: CoinbaseState, e: ItemSeen, rx: RxStamp) -> Parsed<CoinbaseState> {
    match sides_of(e.updates) {
        Err(m) => Parsed { state: s, events: Seq::empty(), outcome: Err(m) },
        Ok(d) => {
            let n = counted(s);
            if e.kind == Some("snapshot"@) {
                Parsed {
                    state: CoinbaseState { awaiting: false, ..n },
                    events: seq![
                        EventView::Snapshot(
                            SnapView {
                                last_update_id: n.counter,
                                limit: 0,
                                bids: d.bids,
                                asks: d.asks,
                                exch_ts_ms: Some(d.ts),
                                rolling: false,
                                rx,
                            },
                        ),
                    ],
                    outcome: Ok(()),
                }
            } else if e.kind == Some("update"@) && !s.awaiting {
                Parsed {
                    state: n,
                    events: seq![
                        EventView::Depth(
                            DiffView {
                                first_id: n.counter,
                                last_id: n.counter,
                                prev_last_id: Some((n.counter - 1) as u64),
                                exch_ts_ms: d.ts,
                                match_ts_ms: None,
                                bids: d.bids,
                                asks: d.asks,
                                rx,
                            },
                        ),
                    ],
                    outcome: Ok(()),
                }
            } else {
                Parsed { state: s, events: Seq::empty(), outcome: Ok(()) }
            }
        },
    }
}

/// What the events of a book message do, up to the first that is refused.
pub open spec fn depths_next(s: CoinbaseState, v: Seq<ItemSeen>, rx: RxStamp) -> Parsed<
    CoinbaseState,
>
    decreases v.len(),
{
    if v.len() == 0 {
        Parsed { state: s, events: Seq::empty(), outcome: Ok(()) }
    } else {
        let p = depths_next(s, v.drop_last(), rx);
        if p.outcome is Err {
            p
        } else {
            let q = depth_next(p.state, v.last(), rx);
            Parsed { state: q.state, events: p.events + q.events, outcome: q.outcome }
        }
    }
}

/// The trade of a message, or why it is refused.
pub open spec fn trade_event(t: TradeSeen, rx: RxStamp) -> Result<EventView, Seq<char>> {
    let ts = stamp_ms(t.time);
    if unsigned(t.trade_id) is None {
        Err("trade_id "@ + t.trade_id)
    } else if ts is None {
        Err(bad_stamp(t.time))
    } else if fixed8(t.price) is Err {
        Err("px: "@ + fixed8(t.price)->Err_0.text())
    } else if fixed8(t.size) is Err {
        Err("size: "@ + fixed8(t.size)->Err_0.text())
    } else if t.side != "SELL"@ && t.side != "BUY"@ {
        Err("side desconocido: "@ + t.side)
    } else {
        let id = unsigned(t.trade_id)->0;
        Ok(
            EventView::Trade(
                AggTrade {
                    agg_id: id,
                    first_trade_id: id,
                    last_trade_id: id,
                    px: Px(fixed8(t.price)->Ok_0),
                    qty: Qty(fixed8(t.size)->Ok_0),
                    qty_normal: None,
                    aggressor: if t.side == "SELL"@ {
                        Aggressor::Buy
                    } else {
                        Aggressor::Sell
                    },
                    trade_ts_ms: ts->0 as u64,
                    exch_ts_ms: ts->0 as u64,
                    rx,
                },
            ),
        )
    }
}

/// The events of some trades, up to the first that is refused.
pub open spec fn trades_next(v: Seq<TradeSeen>, rx: RxStamp) -> (
    Seq<EventView>,
    Result<(), Seq<char>>,
)
    decreases v.len(),
{
    if v.len() == 0 {
        (Seq::empty(), Ok(()))
    } else {
        let (ev, r) = trades_next(v.drop_last(), rx);
        if r is Err {
            (ev, r)
        } else {
            match trade_event(v.last(), rx) {
                Ok(e) => (ev.push(e), Ok(())),
                Err(e) => (ev, Err(e)),
            }
        }
    }
}

/// The trades of the updates of a message (its snapshot brings history).
pub open spec fn market_next(v: Seq<ItemSeen>, rx: RxStamp) -> (
    Seq<EventView>,
    Result<(), Seq<char>>,
)
    decreases v.len(),
{
    if v.len() == 0 {
        (Seq::empty(), Ok(()))
    } else {
        let (ev, r) = market_next(v.drop_last(), rx);
        if r is Err || v.last().kind != Some("update"@) {
            (ev, r)
        } else {
            let (more, o) = trades_next(v.last().trades, rx);
            (ev + more, o)
        }
    }
}

/// What a message with its envelope read does.
pub open spec fn message_next(s: CoinbaseState, env: EnvelopeSeen, rx: RxStamp) -> Parsed<
    CoinbaseState,
> {
    if env.kind == Some("error"@) {
        Parsed {
            state: s,
            events: Seq::empty(),
            outcome: Err(
                "Coinbase error: "@ + (match env.message {
                    Some(m) => m,
                    None => ""@,
                }),
            ),
        }
    } else {
        let t = sequence_next(s, env.sequence_num);
        if env.channel == Some("l2_data"@) && s.depth {
            depths_next(t, env.events, rx)
        } else if env.channel == Some("market_trades"@) {
            let (events, outcome) = market_next(env.events, rx);
            Parsed { state: t, events, outcome }
        } else {
            Parsed { state: t, events: Seq::empty(), outcome: Ok(()) }
        }
    }
}

/// What a frame does.
pub open spec fn frame_next(s: CoinbaseState, text: Seq<char>, rx: RxStamp) -> Parsed<
    CoinbaseState,
> {
    match envelope_of(text) {
        Err(e) => Parsed { state: s, events: Seq::empty(), outcome: Err(e) },
        Ok(env) => message_next(s, env, rx),
    }
}

/// A request on a channel.
pub open spec fn request_text(product: Seq<char>, kind: Seq<char>, channel: Seq<char>) -> Seq<char> {
    "{\"channel\":\""@ + channel + "\",\"product_ids\":["@ + json_quoted(product)
        + "],\"type\":\""@ + kind + "\"}"@
}

proof fn lemma_sides_stop(v: Seq<UpdateSeen>, i: int)
    requires
        0 <= i <= v.len(),
        sides_of(v.take(i)) is Err,
    ensures
        sides_of(v) == sides_of(v.take(i)),
    decreases v.len() - i,
{
    if i < v.len() {
        assert(v.take(i + 1).drop_last() =~= v.take(i));
        lemma_sides_stop(v, i + 1);
    } else {
        assert(v.take(i) =~= v);
    }
}

proof fn lemma_depths_stop(s: CoinbaseState, v: Seq<ItemSeen>, rx: RxStamp, i: int)
    requires
        0 <= i <= v.len(),
        depths_next(s, v.take(i), rx).outcome is Err,
    ensures
        depths_next(s, v, rx) == depths_next(s, v.take(i), rx),
    decreases v.len() - i,
{
    if i < v.len() {
        assert(v.take(i + 1).drop_last() =~= v.take(i));
        lemma_depths_stop(s, v, rx, i + 1);
    } else {
        assert(v.take(i) =~= v);
    }
}

proof fn lemma_trades_stop(v: Seq<TradeSeen>, rx: RxStamp, i: int)
    requires
        0 <= i <= v.len(),
        trades_next(v.take(i), rx).1 is Err,
    ensures
        trades_next(v, rx) == trades_next(v.take(i), rx),
    decreases v.len() - i,
{
    if i < v.len() {
        assert(v.take(i + 1).drop_last() =~= v.take(i));
        lemma_trades_stop(v, rx, i + 1);
    } else {
        assert(v.take(i) =~= v);
    }
}

proof fn lemma_market_stop(v: Seq<ItemSeen>, rx: RxStamp, i: int)
    requires
        0 <= i <= v.len(),
        market_next(v.take(i), rx).1 is Err,
    ensures
        market_next(v, rx) == market_next(v.take(i), rx),
    decreases v.len() - i,
{
    if i < v.len() {
        assert(v.take(i + 1).drop_last() =~= v.take(i));
        lemma_market_stop(v, rx, i + 1);
    } else {
        assert(v.take(i) =~= v);
    }
}

/// The bids, asks and latest time of some changes.
pub fn read_sides(v: &Vec<UpdateWire>) -> (r: Result<(Vec<Level>, Vec<Level>, u64), String>)
    ensures
        sides_of(v.deep_view()) == (match r {
            Ok(x) => Ok(Sides { bids: x.0@, asks: x.1@, ts: x.2 }),
            Err(e) => Err(e@),
        }),
{
    let ghost d = v.deep_view();
    let mut bids: Vec<Level> = Vec::new();
    let mut asks: Vec<Level> = Vec::new();
    let mut ts: u64 = 0;
    let mut i: usize = 0;
    assert(d.take(0) =~= Seq::<UpdateSeen>::empty());
    assert(bids@ =~= Seq::<Level>::empty());
    while i < v.len()
        invariant
            i <= v.len(),
            d == v.deep_view(),
            d.len() == v.len(),
            sides_of(d.take(i as int)) == Ok::<Sides, Seq<char>>(
                Sides { bids: bids@, asks: asks@, ts },
            ),
        decreases v.len() - i,
    {
        let u = &v[i];
        proof {
            assert(d.take(i + 1).drop_last() =~= d.take(i as int));
            assert(d.take(i + 1).last() == u.deep_view());
            if sides_of(d.take(i + 1)) is Err {
                lemma_sides_stop(d, i + 1);
            }
        }
        let l = match read_level(u.price_level.as_str(), u.new_quantity.as_str()) {
            Ok(l) => l,
            Err(e) => return Err(e),
        };
        let t = match rfc3339_ms(u.event_time.as_str()) {
            Ok(t) => t,
            Err(e) => return Err(e),
        };
        if t > ts {
            ts = t;
        }
        if same_text(u.side.as_str(), "bid") {
            bids.push(l);
        } else if same_text(u.side.as_str(), "offer") || same_text(u.side.as_str(), "ask") {
            asks.push(l);
        } else {
            let mut e = String::from_str("lado desconocido: ");
            e.append(u.side.as_str());
            return Err(e);
        }
        i += 1;
    }
    assert(d.take(i as int) =~= d);
    Ok((bids, asks, ts))
}

/// The trade of a message.
pub fn read_trade_event(t: &TradeWire, rx: RxStamp) -> (r: Result<MarketEvent, String>)
    ensures
        match r {
            Ok(e) => trade_event(t.deep_view(), rx) == Ok::<EventView, Seq<char>>(e@),
            Err(e) => trade_event(t.deep_view(), rx) == Err::<EventView, Seq<char>>(e@),
        },
{
    let id = match parse_u64(t.trade_id.as_str()) {
        Some(v) => v,
        None => {
            let mut e = String::from_str("trade_id ");
            e.append(t.trade_id.as_str());
            return Err(e);
        },
    };
    let ts = match rfc3339_ms(t.time.as_str()) {
        Ok(v) => v,
        Err(e) => return Err(e),
    };
    let px = match Px::parse(t.price.as_str()) {
        Ok(v) => v,
        Err(e) => {
            let mut s = String::from_str("px: ");
            s.append(e.message());
            return Err(s);
        },
    };
    let qty = match Qty::parse(t.size.as_str()) {
        Ok(v) => v,
        Err(e) => {
            let mut s = String::from_str("size: ");
            s.append(e.message());
            return Err(s);
        },
    };
    let aggressor = if same_text(t.side.as_str(), "SELL") {
        Aggressor::Buy
    } else if same_text(t.side.as_str(), "BUY") {
        Aggressor::Sell
    } else {
        let mut s = String::from_str("side desconocido: ");
        s.append(t.side.as_str());
        return Err(s);
    };
    Ok(
        MarketEvent::Trade(
            AggTrade {
                agg_id: id,
                first_trade_id: id,
                last_trade_id: id,
                px,
                qty,
                qty_normal: None,
                aggressor,
                trade_ts_ms: ts,
                exch_ts_ms: ts,
                rx,
            },
        ),
    )
}

/// The events of some trades, up to the first that is refused.
pub fn on_trades(v: &Vec<TradeWire>, rx: RxStamp, out: &mut Vec<MarketEvent>) -> (r: Result<
    (),
    String,
>)
    ensures
        ({
            let (ev, o) = trades_next(v.deep_view(), rx);
            &&& events_of(final(out)@) == events_of(old(out)@) + ev
            &&& said(r) == o
        }),
{
    let ghost d = v.deep_view();
    let ghost before = events_of(out@);
    let mut i: usize = 0;
    assert(d.take(0) =~= Seq::<TradeSeen>::empty());
    assert(before + Seq::<EventView>::empty() =~= before);
    while i < v.len()
        invariant
            i <= v.len(),
            d == v.deep_view(),
            d.len() == v.len(),
            before == events_of(old(out)@),
            trades_next(d.take(i as int), rx).1 is Ok,
            events_of(out@) == before + trades_next(d.take(i as int), rx).0,
        decreases v.len() - i,
    {
        let ghost done = trades_next(d.take(i as int), rx).0;
        proof {
            assert(d.take(i + 1).drop_last() =~= d.take(i as int));
            assert(d.take(i + 1).last() == v[i as int].deep_view());
        }
        match read_trade_event(&v[i], rx) {
            Ok(e) => {
                let ghost was = out@;
                out.push(e);
                assert(events_of(out@) =~= events_of(was).push(e@));
                assert(events_of(out@) =~= before + done.push(e@));
            },
            Err(e) => {
                proof {
                    lemma_trades_stop(d, rx, i + 1);
                }
                return Err(e);
            },
        }
        i += 1;
    }
    assert(d.take(i as int) =~= d);
    Ok(())
}

/// Whether a kind is the given one.
fn is_kind(kind: &Option<String>, what: &str) -> (r: bool)
    ensures
        r == (kind.deep_view() == Some(what@)),
{
    match kind {
        Some(k) => same_text(k.as_str(), what),
        None => false,
    }
}

/// The trades of the updates of a message.
pub fn on_market(v: &Vec<ItemWire>, rx: RxStamp, out: &mut Vec<MarketEvent>) -> (r: Result<
    (),
    String,
>)
    ensures
        ({
            let (ev, o) = market_next(v.deep_view(), rx);
            &&& events_of(final(out)@) == events_of(old(out)@) + ev
            &&& said(r) == o
        }),
{
    let ghost d = v.deep_view();
    let ghost before = events_of(out@);
    let mut i: usize = 0;
    assert(d.take(0) =~= Seq::<ItemSeen>::empty());
    assert(before + Seq::<EventView>::empty() =~= before);
    while i < v.len()
        invariant
            i <= v.len(),
            d == v.deep_view(),
            d.len() == v.len(),
            before == events_of(old(out)@),
            market_next(d.take(i as int), rx).1 == Ok::<(), Seq<char>>(()),
            events_of(out@) == before + market_next(d.take(i as int), rx).0,
        decreases v.len() - i,
    {
        let ghost done = market_next(d.take(i as int), rx).0;
        proof {
            assert(d.take(i + 1).drop_last() =~= d.take(i as int));
            assert(d.take(i + 1).last() == v[i as int].deep_view());
        }
        if is_kind(&v[i].kind, "update") {
            let r = on_trades(&v[i].trades, rx, out);
            assert(events_of(out@) =~= before + market_next(d.take(i + 1), rx).0);
            match r {
                Ok(_) => {},
                Err(e) => {
                    proof {
                        lemma_market_stop(d, rx, i + 1);
                    }
                    return Err(e);
                },
            }
        }
        i += 1;
    }
    assert(d.take(i as int) =~= d);
    Ok(())
}

impl CoinbaseProtocol {
    /// What the protocol holds.
    pub closed spec fn content(&self) -> CoinbaseState {
        CoinbaseState {
            product: self.product@,
            depth: self.depth,
            last_seq: self.last_seq,
            counter: self.counter,
            awaiting: self.awaiting,
            resync: self.resync,
        }
    }

    /// `depth` only on the line that feeds the book; the others give trades.
    pub fn new(product: &str, depth: bool) -> (r: Self)
        ensures
            r.content() == (CoinbaseState {
                product: product@,
                depth,
                last_seq: None,
                counter: 0,
                awaiting: true,
                resync: false,
            }),
    {
        CoinbaseProtocol {
            product: String::from_str(product),
            depth,
            last_seq: None,
            counter: 0,
            awaiting: true,
            resync: false,
        }
    }

    /// Takes the sequence number of a message.
    pub fn on_sequence(&mut self, seq: Option<u64>)
        ensures
            final(self).content() == sequence_next(old(self).content(), seq),
    {
        if let Some(n) = seq {
            if let Some(last) = self.last_seq {
                if last == 0xffff_ffff_ffff_ffff || n != last + 1 {
                    self.awaiting = true;
                    self.resync = self.depth;
                }
            }
            self.last_seq = Some(n);
        }
    }

    /// What an event of the book does.
    pub fn on_depth(&mut self, e: &ItemWire, rx: RxStamp, out: &mut Vec<MarketEvent>) -> (r:
        Result<(), String>)
        ensures
            ({
                let p = depth_next(old(self).content(), e.deep_view(), rx);
                &&& final(self).content() == p.state
                &&& events_of(final(out)@) == events_of(old(out)@) + p.events
                &&& said(r) == p.outcome
            }),
    {
        assert(events_of(out@) + Seq::<EventView>::empty() =~= events_of(out@));
        let ghost was = out@;
        let (bids, asks, ts) = match read_sides(&e.updates) {
            Ok(x) => x,
            Err(m) => return Err(m),
        };
        if is_kind(&e.kind, "snapshot") {
            self.counter = self.counter.saturating_add(1);
            self.awaiting = false;
            let ev = MarketEvent::Snapshot(
                DepthSnapshot {
                    last_update_id: self.counter,
                    limit: 0,
                    rolling: false,
                    bids,
                    asks,
                    exch_ts_ms: Some(ts),
                    rx,
                },
            );
            out.push(ev);
            assert(events_of(out@) =~= events_of(was) + seq![ev@]);
        } else if is_kind(&e.kind, "update") && !self.awaiting {
            self.counter = self.counter.saturating_add(1);
            let ev = MarketEvent::Depth(
                DepthDiff {
                    first_id: self.counter,
                    last_id: self.counter,
                    prev_last_id: Some(self.counter - 1),
                    exch_ts_ms: ts,
                    match_ts_ms: None,
                    bids,
                    asks,
                    rx,
                },
            );
            out.push(ev);
            assert(events_of(out@) =~= events_of(was) + seq![ev@]);
        }
        Ok(())
    }

    /// What the events of a book message do, up to the first that is refused.
    pub fn on_depths(&mut self, v: &Vec<ItemWire>, rx: RxStamp, out: &mut Vec<MarketEvent>) -> (r:
        Result<(), String>)
        ensures
            ({
                let p = depths_next(old(self).content(), v.deep_view(), rx);
                &&& final(self).content() == p.state
                &&& events_of(final(out)@) == events_of(old(out)@) + p.events
                &&& said(r) == p.outcome
            }),
    {
        let ghost d = v.deep_view();
        let ghost before = events_of(out@);
        let ghost s = self.content();
        let mut i: usize = 0;
        assert(d.take(0) =~= Seq::<ItemSeen>::empty());
        assert(before + Seq::<EventView>::empty() =~= before);
        while i < v.len()
            invariant
                i <= v.len(),
                d == v.deep_view(),
                d.len() == v.len(),
                before == events_of(old(out)@),
                s == old(self).content(),
                depths_next(s, d.take(i as int), rx).outcome is Ok,
                self.content() == depths_next(s, d.take(i as int), rx).state,
                events_of(out@) == before + depths_next(s, d.take(i as int), rx).events,
            decreases v.len() - i,
        {
            let ghost done = depths_next(s, d.take(i as int), rx).events;
            proof {
                assert(d.take(i + 1).drop_last() =~= d.take(i as int));
                assert(d.take(i + 1).last() == v[i as int].deep_view());
            }
            let r = self.on_depth(&v[i], rx, out);
            assert(events_of(out@) =~= before + depths_next(s, d.take(i + 1), rx).events);
            match r {
                Ok(_) => {},
                Err(e) => {
                    proof {
                        lemma_depths_stop(s, d, rx, i + 1);
                    }
                    return Err(e);
                },
            }
            i += 1;
        }
        assert(d.take(i as int) =~= d);
        Ok(())
    }

    /// What a message with its envelope read does.
    pub fn on_message(&mut self, env: &EnvelopeWire, rx: RxStamp, out: &mut Vec<MarketEvent>) -> (r:
        Result<(), String>)
        ensures
            ({
                let p = message_next(old(self).content(), env.deep_view(), rx);
                &&& final(self).content() == p.state
                &&& events_of(final(out)@) == events_of(old(out)@) + p.events
                &&& said(r) == p.outcome
            }),
    {
        assert(events_of(out@) + Seq::<EventView>::empty() =~= events_of(out@));
        if is_kind(&env.kind, "error") {
            let mut e = String::from_str("Coinbase error: ");
            match &env.message {
                Some(m) => e.append(m.as_str()),
                None => e.append(""),
            }
            return Err(e);
        }
        self.on_sequence(env.sequence_num);
        if is_kind(&env.channel, "l2_data") && self.depth {
            self.on_depths(&env.events, rx, out)
        } else if is_kind(&env.channel, "market_trades") {
            on_market(&env.events, rx, out)
        } else {
            Ok(())
        }
    }

    fn request(&self, kind: &str, channel: &str) -> (r: String)
        ensures
            r@ == request_text(self.content().product, kind@, channel@),
    {
        let mut s = String::from_str("{\"channel\":\"");
        s.append(channel);
        s.append("\",\"product_ids\":[");
        s.append(quoted(self.product.as_str()).as_str());
        s.append("],\"type\":\"");
        s.append(kind);
        s.append("\"}");
        s
    }
}

impl Protocol for CoinbaseProtocol {
    type State = CoinbaseState;

    closed spec fn state(&self) -> CoinbaseState {
        self.content()
    }

    open spec fn connect_next(s: CoinbaseState) -> (CoinbaseState, Seq<Seq<char>>) {
        let base = seq![
            request_text(s.product, "subscribe"@, "heartbeats"@),
            request_text(s.product, "subscribe"@, "market_trades"@),
        ];
        (
            CoinbaseState { last_seq: None, awaiting: true, resync: false, ..s },
            if s.depth {
                base.push(request_text(s.product, "subscribe"@, "level2"@))
            } else {
                base
            },
        )
    }

    open spec fn resubscribe_next(s: CoinbaseState) -> (CoinbaseState, Option<Seq<Seq<char>>>) {
        if !s.depth {
            (s, Some(Seq::empty()))
        } else {
            (
                CoinbaseState { awaiting: true, ..s },
                Some(
                    seq![
                        request_text(s.product, "unsubscribe"@, "level2"@),
                        request_text(s.product, "subscribe"@, "level2"@),
                    ],
                ),
            )
        }
    }

    open spec fn heartbeat(s: CoinbaseState) -> Option<(u64, Seq<char>)> {
        None
    }

    open spec fn parse_next(s: CoinbaseState, text: Seq<char>, rx: RxStamp) -> Parsed<
        CoinbaseState,
    > {
        frame_next(s, text, rx)
    }

    open spec fn resync_next(s: CoinbaseState) -> (CoinbaseState, bool) {
        (CoinbaseState { resync: false, ..s }, s.resync)
    }

    fn on_connect(&mut self) -> (r: Vec<String>) {
        self.last_seq = None;
        self.awaiting = true;
        self.resync = false;
        let mut v: Vec<String> = Vec::new();
        v.push(self.request("subscribe", "heartbeats"));
        v.push(self.request("subscribe", "market_trades"));
        if self.depth {
            v.push(self.request("subscribe", "level2"));
        }
        assert(v.deep_view() =~= Self::connect_next(old(self).state()).1);
        v
    }

    fn resubscribe(&mut self) -> (r: Option<Vec<String>>) {
        let mut v: Vec<String> = Vec::new();
        if self.depth {
            self.awaiting = true;
            v.push(self.request("unsubscribe", "level2"));
            v.push(self.request("subscribe", "level2"));
        }
        assert(v.deep_view() =~= Self::resubscribe_next(old(self).state()).1->0);
        Some(v)
    }

    fn keepalive(&self) -> (r: Option<(u64, &'static str)>) {
        None
    }

    fn parse(&mut self, text: &str, rx: RxStamp, out: &mut Vec<MarketEvent>) -> (r: Result<
        (),
        String,
    >) {
        assert(events_of(out@) + Seq::<EventView>::empty() =~= events_of(out@));
        match read_envelope(text) {
            Ok(env) => self.on_message(&env, rx, out),
            Err(e) => Err(e),
        }
    }

    fn take_resync(&mut self) -> (r: bool) {
        let r = self.resync;
        self.resync = false;
        r
    }
}

/// A depth event carries id `n`; a diff follows the id before it.
pub open spec fn numbered(e: EventView, n: int) -> bool {
    match e {
        EventView::Depth(d) => d.first_id == n && d.last_id == n && d.prev_last_id == Some(
            (n - 1) as u64,
        ),
        EventView::Snapshot(s) => s.last_update_id == n,
        _ => false,
    }
}

/// The depth of a line is numbered without gaps, and never goes back: each event of a
/// book message takes the next id. Where the line awaits a snapshot, the first depth
/// event that it gives is one.
pub proof fn law_depth_numbered(s: CoinbaseState, v: Seq<ItemSeen>, rx: RxStamp)
    requires
        s.counter + v.len() <= u64::MAX,
    ensures
        ({
            let p = depths_next(s, v, rx);
            &&& p.events.len() <= v.len()
            &&& p.state.counter == s.counter + p.events.len()
            &&& forall|i: int|
                0 <= i < p.events.len() ==> numbered(#[trigger] p.events[i], s.counter + 1 + i)
            &&& s.awaiting && p.events.len() > 0 ==> p.events[0] is Snapshot
            &&& s.awaiting && p.events.len() == 0 ==> p.state.awaiting
        }),
    decreases v.len(),
{
    if v.len() > 0 {
        let u = v.drop_last();
        law_depth_numbered(s, u, rx);
        let p = depths_next(s, u, rx);
        let n = depths_next(s, v, rx);
        if p.outcome is Ok {
            let q = depth_next(p.state, v.last(), rx);
            assert(n.events =~= p.events + q.events);
        }
    }
}

/// A gap in the sequence of the connection stops its depth: the message that shows it
/// and those after it give no diff before a snapshot, and a new snapshot is asked for.
pub proof fn law_gap_stops_depth(s: CoinbaseState, env: EnvelopeSeen, rx: RxStamp)
    requires
        s.depth,
        s.last_seq is Some,
        env.sequence_num is Some,
        env.sequence_num->0 != s.last_seq->0 + 1,
        env.kind != Some("error"@),
        s.counter + env.events.len() <= u64::MAX,
    ensures
        ({
            let p = message_next(s, env, rx);
            &&& p.state.resync
            &&& env.channel == Some("l2_data"@) && p.events.len() > 0 ==> p.events[0] is Snapshot
            &&& p.events.len() == 0 ==> p.state.awaiting
        }),
{
    let t = sequence_next(s, env.sequence_num);
    law_depth_numbered(t, env.events, rx);
    lemma_resync_stays(t, env.events, rx);
}

proof fn lemma_resync_stays(s: CoinbaseState, v: Seq<ItemSeen>, rx: RxStamp)
    ensures
        depths_next(s, v, rx).state.resync == s.resync,
    decreases v.len(),
{
    if v.len() > 0 {
        lemma_resync_stays(s, v.drop_last(), rx);
    }
}

/// What a line of a market carries.
pub struct LineRole {
    /// It feeds the book; the others bring trades only.
    pub depth: bool,
    /// What it is called.
    pub tag: &'static str,
}

/// The lines of a market, at least one: the sequence of the book belongs to a connection, so
/// the first line alone feeds it.
pub fn line_roles(lines: usize) -> (r: Vec<LineRole>)
    ensures
        r@.len() == (if lines == 0 {
            1
        } else {
            lines as int
        }),
        forall|i: int|
            0 <= i < r@.len() ==> (#[trigger] r@[i]).depth == (i == 0) && r@[i].tag@ == (if i
                == 0 {
                "level2+trades"@
            } else {
                "trades"@
            }),
{
    let mut r: Vec<LineRole> = vec![LineRole { depth: true, tag: "level2+trades" }];
    let mut i: usize = 1;
    while i < lines
        invariant
            1 <= i,
            lines > 0 ==> i <= lines,
            lines == 0 ==> i == 1,
            r@.len() == i,
            forall|j: int|
                0 <= j < r@.len() ==> (#[trigger] r@[j]).depth == (j == 0) && r@[j].tag@ == (if j
                    == 0 {
                    "level2+trades"@
                } else {
                    "trades"@
                }),
        decreases lines - i,
    {
        r.push(LineRole { depth: false, tag: "trades" });
        i += 1;
    }
    r
}

} // verus!

//! Kraken v2 connector: protocol, mirror checked by CRC-32 and parsing into normalised
//! events.
//!
//! The book channel has no sequence number. Each message carries the CRC-32 of the top
//! ten levels, so the connection keeps a mirror, applies and trims each update, and
//! gives an event only where the checksum agrees; the levels trimmed away go out as
//! removals. After a disagreement it gives no depth until a new snapshot. The depth is
//! numbered by a contiguous counter.

use crate::crc::{crc32, crc_of};
use crate::event::{
    AggTrade, Aggressor, DepthDiff, DepthSnapshot, DiffView, EventView, Level, MarketEvent,
    RxStamp, SnapView,
};
use crate::fixed::{number8, parse_json_number8, pow10, Px, Qty, DECIMALS};
use crate::json::{
    find_given, get_list, get_list_or_empty, get_opt_bool, get_opt_str, get_raw, get_str,
    get_string, get_u32, get_u64, given_of, json_array, json_object, json_quoted, list_in,
    list_or_empty_in, opt_bool_in, opt_str_in, quoted, raw_in, read_array, read_object,
    read_strings, seen, str_in, string_in, strings_of, u32_in, u64_in,
};
use crate::net::{events_of, said, Parsed, Protocol};
use crate::num::clamp_u64;
use crate::ordmap::{del, key_lt, lemma_del, lemma_entry_found, lemma_put, put, sorted, SortedMap};
use crate::quote::{refusal, refused};
use crate::record::{read_record, record_of};
use crate::text::{int_text, push_int, same_text};
use crate::time::{rfc3339_ms, stamp_ms};
use crate::words::{strip_char, without};
use vstd::prelude::*;
use vstd::string::StringExecFns;
use vstd::utf8::encode_utf8;

verus! {

/// Public URL.
pub const WS_URL: &'static str = "wss://ws.kraken.com/v2";

/// A level: raw numbers.
pub struct QuoteWire {
    /// Price.
    pub price: String,
    /// Quantity.
    pub qty: String,
}

/// What a [`QuoteWire`] holds.
#[verifier::ext_equal]
pub struct QuoteSeen {
    /// Price.
    pub price: Seq<char>,
    /// Quantity.
    pub qty: Seq<char>,
}

impl DeepView for QuoteWire {
    type V = QuoteSeen;

    open spec fn deep_view(&self) -> QuoteSeen {
        QuoteSeen {
            price: self.price.deep_view(),
            qty: self.qty.deep_view(),
        }
    }
}

/// The fields, in order.
pub open spec fn quote_fields() -> Seq<Seq<char>> {
    seq!["price"@, "qty"@]
}

/// The level that a text writes, or why it is refused.
pub open spec fn quote_of(text: Seq<char>) -> Result<QuoteSeen, Seq<char>> {
    match record_of(text, quote_fields(), 2) {
        Err(e) => Err(e),
        Ok(f) => {
            let price = raw_in(f, "price"@);
            let qty = raw_in(f, "qty"@);
            if price is Err {
                Err(price->Err_0)
            } else if qty is Err {
                Err(qty->Err_0)
            } else {
                Ok(QuoteSeen { price: price->Ok_0, qty: qty->Ok_0 })
            }
        },
    }
}

/// Reads a level.
pub fn read_quote(text: &str) -> (r: Result<QuoteWire, String>)
    ensures
        seen(r) == quote_of(text@),
{
    let fields = ["price", "qty"];
    assert(fields.deep_view() =~= quote_fields());
    let f = match read_record(text, &fields, 2) {
        Ok(f) => f,
        Err(e) => return Err(e),
    };
    let price = match get_raw(&f, "price") {
        Ok(v) => v,
        Err(e) => return Err(e),
    };
    let qty = match get_raw(&f, "qty") {
        Ok(v) => v,
        Err(e) => return Err(e),
    };
    Ok(QuoteWire { price, qty })
}

/// All the levels, or the message of the first that fails.
pub open spec fn quotes_of(items: Seq<Seq<char>>) -> Result<Seq<QuoteSeen>, Seq<char>>
    decreases items.len(),
{
    if items.len() == 0 {
        Ok(Seq::empty())
    } else {
        match quotes_of(items.drop_last()) {
            Err(e) => Err(e),
            Ok(s) => match quote_of(items.last()) {
                Err(e) => Err(e),
                Ok(x) => Ok(s.push(x)),
            },
        }
    }
}

proof fn lemma_quotes_of_stops(items: Seq<Seq<char>>, i: int)
    requires
        0 <= i <= items.len(),
        quotes_of(items.take(i)) is Err,
    ensures
        quotes_of(items) == quotes_of(items.take(i)),
    decreases items.len() - i,
{
    if i < items.len() {
        assert(items.take(i + 1).drop_last() =~= items.take(i));
        lemma_quotes_of_stops(items, i + 1);
    } else {
        assert(items.take(i) =~= items);
    }
}

/// Reads them all; the first that fails decides.
pub fn read_quotes(items: &Vec<String>) -> (r: Result<Vec<QuoteWire>, String>)
    ensures
        seen(r) == quotes_of(items.deep_view()),
{
    let ghost d = items.deep_view();
    let mut out: Vec<QuoteWire> = Vec::new();
    let mut i: usize = 0;
    assert(d.take(0) =~= Seq::<Seq<char>>::empty());
    assert(out.deep_view() =~= Seq::<QuoteSeen>::empty());
    while i < items.len()
        invariant
            i <= items.len(),
            d == items.deep_view(),
            d.len() == items.len(),
            quotes_of(d.take(i as int)) == Ok::<Seq<QuoteSeen>, Seq<char>>(out.deep_view()),
        decreases items.len() - i,
    {
        proof {
            assert(d.take(i + 1).drop_last() =~= d.take(i as int));
            assert(d.take(i + 1).last() == items[i as int]@);
        }
        match read_quote(items[i].as_str()) {
            Ok(x) => {
                let ghost before = out.deep_view();
                out.push(x);
                assert(out.deep_view() =~= before.push(x.deep_view()));
            },
            Err(e) => {
                proof {
                    lemma_quotes_of_stops(d, i + 1);
                }
                return Err(e);
            },
        }
        i += 1;
    }
    assert(d.take(i as int) =~= d);
    Ok(out)
}

/// A book message.
pub struct BookWire {
    /// Bids.
    pub bids: Vec<QuoteWire>,
    /// Asks.
    pub asks: Vec<QuoteWire>,
    /// Checksum of the top of the book after the message.
    pub checksum: u32,
    /// Time.
    pub timestamp: Option<String>,
}

/// What a [`BookWire`] holds.
#[verifier::ext_equal]
pub struct BookSeen {
    /// Bids.
    pub bids: Seq<QuoteSeen>,
    /// Asks.
    pub asks: Seq<QuoteSeen>,
    /// Checksum of the top of the book after the message.
    pub checksum: u32,
    /// Time.
    pub timestamp: Option<Seq<char>>,
}

impl DeepView for BookWire {
    type V = BookSeen;

    open spec fn deep_view(&self) -> BookSeen {
        BookSeen {
            bids: self.bids.deep_view(),
            asks: self.asks.deep_view(),
            checksum: self.checksum.deep_view(),
            timestamp: self.timestamp.deep_view(),
        }
    }
}

/// The fields, in order.
pub open spec fn book_fields() -> Seq<Seq<char>> {
    seq!["bids"@, "asks"@, "checksum"@, "timestamp"@]
}

/// The book message that a text writes, or why it is refused.
pub open spec fn book_of(text: Seq<char>) -> Result<BookSeen, Seq<char>> {
    match record_of(text, book_fields(), 3) {
        Err(e) => Err(e),
        Ok(f) => {
            let bids = match list_or_empty_in(f, "bids"@) {
                Ok(items) => quotes_of(items),
                Err(e) => Err(e),
            };
            let asks = match list_or_empty_in(f, "asks"@) {
                Ok(items) => quotes_of(items),
                Err(e) => Err(e),
            };
            let checksum = u32_in(f, "checksum"@);
            let timestamp = opt_str_in(f, "timestamp"@);
            if bids is Err {
                Err(bids->Err_0)
            } else if asks is Err {
                Err(asks->Err_0)
            } else if checksum is Err {
                Err(checksum->Err_0)
            } else if timestamp is Err {
                Err(timestamp->Err_0)
            } else {
                Ok(
                    BookSeen {
                        bids: bids->Ok_0,
                        asks: asks->Ok_0,
                        checksum: checksum->Ok_0,
                        timestamp: timestamp->Ok_0,
                    },
                )
            }
        },
    }
}

/// Reads a book message.
pub fn read_book(text: &str) -> (r: Result<BookWire, String>)
    ensures
        seen(r) == book_of(text@),
{
    let fields = ["bids", "asks", "checksum", "timestamp"];
    assert(fields.deep_view() =~= book_fields());
    let f = match read_record(text, &fields, 3) {
        Ok(f) => f,
        Err(e) => return Err(e),
    };
    let bids = match get_list_or_empty(&f, "bids") {
        Ok(items) => match read_quotes(&items) {
            Ok(v) => v,
            Err(e) => return Err(e),
        },
        Err(e) => return Err(e),
    };
    let asks = match get_list_or_empty(&f, "asks") {
        Ok(items) => match read_quotes(&items) {
            Ok(v) => v,
            Err(e) => return Err(e),
        },
        Err(e) => return Err(e),
    };
    let checksum = match get_u32(&f, "checksum") {
        Ok(v) => v,
        Err(e) => return Err(e),
    };
    let timestamp = match get_opt_str(&f, "timestamp") {
        Ok(v) => v,
        Err(e) => return Err(e),
    };
    Ok(BookWire { bids, asks, checksum, timestamp })
}

/// All the book messages, or the message of the first that fails.
pub open spec fn books_of(items: Seq<Seq<char>>) -> Result<Seq<BookSeen>, Seq<char>>
    decreases items.len(),
{
    if items.len() == 0 {
        Ok(Seq::empty())
    } else {
        match books_of(items.drop_last()) {
            Err(e) => Err(e),
            Ok(s) => match book_of(items.last()) {
                Err(e) => Err(e),
                Ok(x) => Ok(s.push(x)),
            },
        }
    }
}

proof fn lemma_books_of_stops(items: Seq<Seq<char>>, i: int)
    requires
        0 <= i <= items.len(),
        books_of(items.take(i)) is Err,
    ensures
        books_of(items) == books_of(items.take(i)),
    decreases items.len() - i,
{
    if i < items.len() {
        assert(items.take(i + 1).drop_last() =~= items.take(i));
        lemma_books_of_stops(items, i + 1);
    } else {
        assert(items.take(i) =~= items);
    }
}

/// Reads them all; the first that fails decides.
pub fn read_books(items: &Vec<String>) -> (r: Result<Vec<BookWire>, String>)
    ensures
        seen(r) == books_of(items.deep_view()),
{
    let ghost d = items.deep_view();
    let mut out: Vec<BookWire> = Vec::new();
    let mut i: usize = 0;
    assert(d.take(0) =~= Seq::<Seq<char>>::empty());
    assert(out.deep_view() =~= Seq::<BookSeen>::empty());
    while i < items.len()
        invariant
            i <= items.len(),
            d == items.deep_view(),
            d.len() == items.len(),
            books_of(d.take(i as int)) == Ok::<Seq<BookSeen>, Seq<char>>(out.deep_view()),
        decreases items.len() - i,
    {
        proof {
            assert(d.take(i + 1).drop_last() =~= d.take(i as int));
            assert(d.take(i + 1).last() == items[i as int]@);
        }
        match read_book(items[i].as_str()) {
            Ok(x) => {
                let ghost before = out.deep_view();
                out.push(x);
                assert(out.deep_view() =~= before.push(x.deep_view()));
            },
            Err(e) => {
                proof {
                    lemma_books_of_stops(d, i + 1);
                }
                return Err(e);
            },
        }
        i += 1;
    }
    assert(d.take(i as int) =~= d);
    Ok(out)
}

/// A trade.
pub struct TradeWire {
    /// Side of the aggressor.
    pub side: String,
    /// Price.
    pub price: String,
    /// Quantity.
    pub qty: String,
    /// Id.
    pub trade_id: u64,
    /// Time.
    pub timestamp: String,
}

/// What a [`TradeWire`] holds.
#[verifier::ext_equal]
pub struct TradeSeen {
    /// Side of the aggressor.
    pub side: Seq<char>,
    /// Price.
    pub price: Seq<char>,
    /// Quantity.
    pub qty: Seq<char>,
    /// Id.
    pub trade_id: u64,
    /// Time.
    pub timestamp: Seq<char>,
}

impl DeepView for TradeWire {
    type V = TradeSeen;

    open spec fn deep_view(&self) -> TradeSeen {
        TradeSeen {
            side: self.side.deep_view(),
            price: self.price.deep_view(),
            qty: self.qty.deep_view(),
            trade_id: self.trade_id.deep_view(),
            timestamp: self.timestamp.deep_view(),
        }
    }
}

/// The fields, in order.
pub open spec fn trade_fields() -> Seq<Seq<char>> {
    seq!["side"@, "price"@, "qty"@, "trade_id"@, "timestamp"@]
}

/// The trade that a text writes, or why it is refused.
pub open spec fn trade_of(text: Seq<char>) -> Result<TradeSeen, Seq<char>> {
    match record_of(text, trade_fields(), 5) {
        Err(e) => Err(e),
        Ok(f) => {
            let side = str_in(f, "side"@);
            let price = raw_in(f, "price"@);
            let qty = raw_in(f, "qty"@);
            let trade_id = u64_in(f, "trade_id"@);
            let timestamp = str_in(f, "timestamp"@);
            if side is Err {
                Err(side->Err_0)
            } else if price is Err {
                Err(price->Err_0)
            } else if qty is Err {
                Err(qty->Err_0)
            } else if trade_id is Err {
                Err(trade_id->Err_0)
            } else if timestamp is Err {
                Err(timestamp->Err_0)
            } else {
                Ok(
                    TradeSeen {
                        side: side->Ok_0,
                        price: price->Ok_0,
                        qty: qty->Ok_0,
                        trade_id: trade_id->Ok_0,
                        timestamp: timestamp->Ok_0,
                    },
                )
            }
        },
    }
}

/// Reads a trade.
pub fn read_trade(text: &str) -> (r: Result<TradeWire, String>)
    ensures
        seen(r) == trade_of(text@),
{
    let fields = ["side", "price", "qty", "trade_id", "timestamp"];
    assert(fields.deep_view() =~= trade_fields());
    let f = match read_record(text, &fields, 5) {
        Ok(f) => f,
        Err(e) => return Err(e),
    };
    let side = match get_str(&f, "side") {
        Ok(v) => v,
        Err(e) => return Err(e),
    };
    let price = match get_raw(&f, "price") {
        Ok(v) => v,
        Err(e) => return Err(e),
    };
    let qty = match get_raw(&f, "qty") {
        Ok(v) => v,
        Err(e) => return Err(e),
    };
    let trade_id = match get_u64(&f, "trade_id") {
        Ok(v) => v,
        Err(e) => return Err(e),
    };
    let timestamp = match get_str(&f, "timestamp") {
        Ok(v) => v,
        Err(e) => return Err(e),
    };
    Ok(TradeWire { side, price, qty, trade_id, timestamp })
}

/// All the trades, or the message of the first that fails.
pub open spec fn trades_of(items: Seq<Seq<char>>) -> Result<Seq<TradeSeen>, Seq<char>>
    decreases items.len(),
{
    if items.len() == 0 {
        Ok(Seq::empty())
    } else {
        match trades_of(items.drop_last()) {
            Err(e) => Err(e),
            Ok(s) => match trade_of(items.last()) {
                Err(e) => Err(e),
                Ok(x) => Ok(s.push(x)),
            },
        }
    }
}

proof fn lemma_trades_of_stops(items: Seq<Seq<char>>, i: int)
    requires
        0 <= i <= items.len(),
        trades_of(items.take(i)) is Err,
    ensures
        trades_of(items) == trades_of(items.take(i)),
    decreases items.len() - i,
{
    if i < items.len() {
        assert(items.take(i + 1).drop_last() =~= items.take(i));
        lemma_trades_of_stops(items, i + 1);
    } else {
        assert(items.take(i) =~= items);
    }
}

/// Reads them all; the first that fails decides.
pub fn read_trades(items: &Vec<String>) -> (r: Result<Vec<TradeWire>, String>)
    ensures
        seen(r) == trades_of(items.deep_view()),
{
    let ghost d = items.deep_view();
    let mut out: Vec<TradeWire> = Vec::new();
    let mut i: usize = 0;
    assert(d.take(0) =~= Seq::<Seq<char>>::empty());
    assert(out.deep_view() =~= Seq::<TradeSeen>::empty());
    while i < items.len()
        invariant
            i <= items.len(),
            d == items.deep_view(),
            d.len() == items.len(),
            trades_of(d.take(i as int)) == Ok::<Seq<TradeSeen>, Seq<char>>(out.deep_view()),
        decreases items.len() - i,
    {
        proof {
            assert(d.take(i + 1).drop_last() =~= d.take(i as int));
            assert(d.take(i + 1).last() == items[i as int]@);
        }
        match read_trade(items[i].as_str()) {
            Ok(x) => {
                let ghost before = out.deep_view();
                out.push(x);
                assert(out.deep_view() =~= before.push(x.deep_view()));
            },
            Err(e) => {
                proof {
                    lemma_trades_of_stops(d, i + 1);
                }
                return Err(e);
            },
        }
        i += 1;
    }
    assert(d.take(i as int) =~= d);
    Ok(out)
}

/// The envelope of a message.
pub struct EnvelopeWire {
    /// Channel.
    pub channel: Option<String>,
    /// Snapshot or update.
    pub kind: Option<String>,
    /// Raw payload.
    pub data: Option<String>,
    /// Method that is answered.
    pub method: Option<String>,
    /// Outcome of the method.
    pub success: Option<bool>,
    /// Message of the method.
    pub error: Option<String>,
}

/// What a [`EnvelopeWire`] holds.
#[verifier::ext_equal]
pub struct EnvelopeSeen {
    /// Channel.
    pub channel: Option<Seq<char>>,
    /// Snapshot or update.
    pub kind: Option<Seq<char>>,
    /// Raw payload.
    pub data: Option<Seq<char>>,
    /// Method that is answered.
    pub method: Option<Seq<char>>,
    /// Outcome of the method.
    pub success: Option<bool>,
    /// Message of the method.
    pub error: Option<Seq<char>>,
}

impl DeepView for EnvelopeWire {
    type V = EnvelopeSeen;

    open spec fn deep_view(&self) -> EnvelopeSeen {
        EnvelopeSeen {
            channel: self.channel.deep_view(),
            kind: self.kind.deep_view(),
            data: self.data.deep_view(),
            method: self.method.deep_view(),
            success: self.success.deep_view(),
            error: self.error.deep_view(),
        }
    }
}

/// The fields, in order.
pub open spec fn envelope_fields() -> Seq<Seq<char>> {
    seq!["channel"@, "type"@, "data"@, "method"@, "success"@, "error"@]
}

/// The envelope that a text writes, or why it is refused.
pub open spec fn envelope_of(text: Seq<char>) -> Result<EnvelopeSeen, Seq<char>> {
    match record_of(text, envelope_fields(), 0) {
        Err(e) => Err(e),
        Ok(f) => {
            let channel = opt_str_in(f, "channel"@);
            let kind = opt_str_in(f, "type"@);
            let method = opt_str_in(f, "method"@);
            let success = opt_bool_in(f, "success"@);
            let error = opt_str_in(f, "error"@);
            if channel is Err {
                Err(channel->Err_0)
            } else if kind is Err {
                Err(kind->Err_0)
            } else if method is Err {
                Err(method->Err_0)
            } else if success is Err {
                Err(success->Err_0)
            } else if error is Err {
                Err(error->Err_0)
            } else {
                Ok(
                    EnvelopeSeen {
                        channel: channel->Ok_0,
                        kind: kind->Ok_0,
                        data: given_of(f, "data"@),
                        method: method->Ok_0,
                        success: success->Ok_0,
                        error: error->Ok_0,
                    },
                )
            }
        },
    }
}

/// Reads the envelope of a message.
pub fn read_envelope(text: &str) -> (r: Result<EnvelopeWire, String>)
    ensures
        seen(r) == envelope_of(text@),
{
    let fields = ["channel", "type", "data", "method", "success", "error"];
    assert(fields.deep_view() =~= envelope_fields());
    let f = match read_record(text, &fields, 0) {
        Ok(f) => f,
        Err(e) => return Err(e),
    };
    let channel = match get_opt_str(&f, "channel") {
        Ok(v) => v,
        Err(e) => return Err(e),
    };
    let kind = match get_opt_str(&f, "type") {
        Ok(v) => v,
        Err(e) => return Err(e),
    };
    let data = find_given(&f, "data");
    let method = match get_opt_str(&f, "method") {
        Ok(v) => v,
        Err(e) => return Err(e),
    };
    let success = match get_opt_bool(&f, "success") {
        Ok(v) => v,
        Err(e) => return Err(e),
    };
    let error = match get_opt_str(&f, "error") {
        Ok(v) => v,
        Err(e) => return Err(e),
    };
    Ok(EnvelopeWire { channel, kind, data, method, success, error })
}

/// A pair of the REST reply.
pub struct PairWire {
    /// Name of the pair on the WebSocket.
    pub wsname: String,
    /// Decimals of the price.
    pub pair_decimals: u32,
    /// Decimals of the quantity.
    pub lot_decimals: u32,
}

/// What a [`PairWire`] holds.
#[verifier::ext_equal]
pub struct PairSeen {
    /// Name of the pair on the WebSocket.
    pub wsname: Seq<char>,
    /// Decimals of the price.
    pub pair_decimals: u32,
    /// Decimals of the quantity.
    pub lot_decimals: u32,
}

impl DeepView for PairWire {
    type V = PairSeen;

    open spec fn deep_view(&self) -> PairSeen {
        PairSeen {
            wsname: self.wsname.deep_view(),
            pair_decimals: self.pair_decimals.deep_view(),
            lot_decimals: self.lot_decimals.deep_view(),
        }
    }
}

/// The fields, in order.
pub open spec fn pair_fields() -> Seq<Seq<char>> {
    seq!["wsname"@, "pair_decimals"@, "lot_decimals"@]
}

/// The pair that a text writes, or why it is refused.
pub open spec fn pair_of(text: Seq<char>) -> Result<PairSeen, Seq<char>> {
    match record_of(text, pair_fields(), 3) {
        Err(e) => Err(e),
        Ok(f) => {
            let wsname = string_in(f, "wsname"@);
            let pair_decimals = u32_in(f, "pair_decimals"@);
            let lot_decimals = u32_in(f, "lot_decimals"@);
            if wsname is Err {
                Err(wsname->Err_0)
            } else if pair_decimals is Err {
                Err(pair_decimals->Err_0)
            } else if lot_decimals is Err {
                Err(lot_decimals->Err_0)
            } else {
                Ok(
                    PairSeen {
                        wsname: wsname->Ok_0,
                        pair_decimals: pair_decimals->Ok_0,
                        lot_decimals: lot_decimals->Ok_0,
                    },
                )
            }
        },
    }
}

/// Reads a pair.
pub fn read_pair(text: &str) -> (r: Result<PairWire, String>)
    ensures
        seen(r) == pair_of(text@),
{
    let fields = ["wsname", "pair_decimals", "lot_decimals"];
    assert(fields.deep_view() =~= pair_fields());
    let f = match read_record(text, &fields, 3) {
        Ok(f) => f,
        Err(e) => return Err(e),
    };
    let wsname = match get_string(&f, "wsname") {
        Ok(v) => v,
        Err(e) => return Err(e),
    };
    let pair_decimals = match get_u32(&f, "pair_decimals") {
        Ok(v) => v,
        Err(e) => return Err(e),
    };
    let lot_decimals = match get_u32(&f, "lot_decimals") {
        Ok(v) => v,
        Err(e) => return Err(e),
    };
    Ok(PairWire { wsname, pair_decimals, lot_decimals })
}

/// All the pairs, or the message of the first that fails.
pub open spec fn pairs_of(items: Seq<Seq<char>>) -> Result<Seq<PairSeen>, Seq<char>>
    decreases items.len(),
{
    if items.len() == 0 {
        Ok(Seq::empty())
    } else {
        match pairs_of(items.drop_last()) {
            Err(e) => Err(e),
            Ok(s) => match pair_of(items.last()) {
                Err(e) => Err(e),
                Ok(x) => Ok(s.push(x)),
            },
        }
    }
}

proof fn lemma_pairs_of_stops(items: Seq<Seq<char>>, i: int)
    requires
        0 <= i <= items.len(),
        pairs_of(items.take(i)) is Err,
    ensures
        pairs_of(items) == pairs_of(items.take(i)),
    decreases items.len() - i,
{
    if i < items.len() {
        assert(items.take(i + 1).drop_last() =~= items.take(i));
        lemma_pairs_of_stops(items, i + 1);
    } else {
        assert(items.take(i) =~= items);
    }
}

/// Reads them all; the first that fails decides.
pub fn read_pairs(items: &Vec<String>) -> (r: Result<Vec<PairWire>, String>)
    ensures
        seen(r) == pairs_of(items.deep_view()),
{
    let ghost d = items.deep_view();
    let mut out: Vec<PairWire> = Vec::new();
    let mut i: usize = 0;
    assert(d.take(0) =~= Seq::<Seq<char>>::empty());
    assert(out.deep_view() =~= Seq::<PairSeen>::empty());
    while i < items.len()
        invariant
            i <= items.len(),
            d == items.deep_view(),
            d.len() == items.len(),
            pairs_of(d.take(i as int)) == Ok::<Seq<PairSeen>, Seq<char>>(out.deep_view()),
        decreases items.len() - i,
    {
        proof {
            assert(d.take(i + 1).drop_last() =~= d.take(i as int));
            assert(d.take(i + 1).last() == items[i as int]@);
        }
        match read_pair(items[i].as_str()) {
            Ok(x) => {
                let ghost before = out.deep_view();
                out.push(x);
                assert(out.deep_view() =~= before.push(x.deep_view()));
            },
            Err(e) => {
                proof {
                    lemma_pairs_of_stops(d, i + 1);
                }
                return Err(e);
            },
        }
        i += 1;
    }
    assert(d.take(i as int) =~= d);
    Ok(out)
}

/// The REST reply.
pub struct ReplyWire {
    /// Errors.
    pub error: Vec<String>,
    /// Raw result.
    pub result: Option<String>,
}

/// What a [`ReplyWire`] holds.
#[verifier::ext_equal]
pub struct ReplySeen {
    /// Errors.
    pub error: Seq<Seq<char>>,
    /// Raw result.
    pub result: Option<Seq<char>>,
}

impl DeepView for ReplyWire {
    type V = ReplySeen;

    open spec fn deep_view(&self) -> ReplySeen {
        ReplySeen {
            error: self.error.deep_view(),
            result: self.result.deep_view(),
        }
    }
}

/// The fields, in order.
pub open spec fn reply_fields() -> Seq<Seq<char>> {
    seq!["error"@, "result"@]
}

/// The reply that a text writes, or why it is refused.
pub open spec fn reply_of(text: Seq<char>) -> Result<ReplySeen, Seq<char>> {
    match record_of(text, reply_fields(), 2) {
        Err(e) => Err(e),
        Ok(f) => {
            let error = match list_in(f, "error"@) {
                Ok(items) => strings_of(items),
                Err(e) => Err(e),
            };
            if error is Err {
                Err(error->Err_0)
            } else {
                Ok(ReplySeen { error: error->Ok_0, result: given_of(f, "result"@) })
            }
        },
    }
}

/// Reads a REST reply.
pub fn read_reply(text: &str) -> (r: Result<ReplyWire, String>)
    ensures
        seen(r) == reply_of(text@),
{
    let fields = ["error", "result"];
    assert(fields.deep_view() =~= reply_fields());
    let f = match read_record(text, &fields, 2) {
        Ok(f) => f,
        Err(e) => return Err(e),
    };
    let error = match get_list(&f, "error") {
        Ok(items) => match read_strings(&items) {
            Ok(v) => v,
            Err(e) => return Err(e),
        },
        Err(e) => return Err(e),
    };
    let result = find_given(&f, "result");
    Ok(ReplyWire { error, result })
}

/// What a [`KrakenProtocol`] holds.
#[verifier::ext_equal]
pub struct KrakenState {
    /// Pair, as the WebSocket names it.
    pub symbol: Seq<char>,
    /// This line feeds the book.
    pub depth: bool,
    /// Levels per side that the venue keeps.
    pub n: nat,
    /// Raw units per unit of the price's precision.
    pub price_div: i64,
    /// Raw units per unit of the quantity's precision.
    pub qty_div: i64,
    /// Id of the last depth event given.
    pub counter: u64,
    /// No depth is given until a snapshot.
    pub awaiting: bool,
    /// A new snapshot is asked for.
    pub resync: bool,
    /// Mirror of the bids, by price.
    pub bids: Seq<(i64, i64)>,
    /// Mirror of the asks, by price.
    pub asks: Seq<(i64, i64)>,
    /// Checksums that agreed.
    pub checksum_ok: u64,
    /// Checksums that did not.
    pub checksum_bad: u64,
}

/// Kraken protocol of a pair on a line (state per connection).
pub struct KrakenProtocol {
    symbol: String,
    depth: bool,
    n: usize,
    price_div: i64,
    qty_div: i64,
    counter: u64,
    awaiting: bool,
    resync: bool,
    bids: SortedMap<i64, i64>,
    asks: SortedMap<i64, i64>,
    checksum_ok: u64,
    checksum_bad: u64,
}

/// The message for a stamp that cannot be read.
pub open spec fn bad_stamp(t: Seq<char>) -> Seq<char> {
    "fecha inválida: "@ + t
}

/// The raw value of a number, or why it is refused.
pub open spec fn num_of(t: Seq<char>) -> Result<i64, Seq<char>> {
    match number8(t) {
        Ok(v) => Ok(v),
        Err(e) => Err(refusal("número "@, t, e)),
    }
}

/// The raw price and quantity of a level, or why it is refused.
pub open spec fn raw_level(l: QuoteSeen) -> Result<(i64, i64), Seq<char>> {
    match num_of(l.price) {
        Err(e) => Err(e),
        Ok(p) => match num_of(l.qty) {
            Err(e) => Err(e),
            Ok(q) => Ok((p, q)),
        },
    }
}

/// The raw levels, or why the first that fails is refused.
pub open spec fn raw_levels(v: Seq<QuoteSeen>) -> Result<Seq<(i64, i64)>, Seq<char>>
    decreases v.len(),
{
    if v.len() == 0 {
        Ok(Seq::empty())
    } else {
        match raw_levels(v.drop_last()) {
            Err(e) => Err(e),
            Ok(s) => match raw_level(v.last()) {
                Err(e) => Err(e),
                Ok(l) => Ok(s.push(l)),
            },
        }
    }
}

/// A mirror with a level set; quantity 0 removes it.
pub open spec fn level_set(m: Seq<(i64, i64)>, l: (i64, i64)) -> Seq<(i64, i64)> {
    if l.1 == 0 {
        del(m, l.0)
    } else {
        put(m, l.0, l.1)
    }
}

/// A mirror after some changes, in order.
pub open spec fn changed(m: Seq<(i64, i64)>, v: Seq<(i64, i64)>) -> Seq<(i64, i64)>
    decreases v.len(),
{
    if v.len() == 0 {
        m
    } else {
        level_set(changed(m, v.drop_last()), v.last())
    }
}

/// The mirror of a snapshot: its levels with quantity.
pub open spec fn filled(v: Seq<(i64, i64)>) -> Seq<(i64, i64)>
    decreases v.len(),
{
    if v.len() == 0 {
        Seq::empty()
    } else if v.last().1 > 0 {
        put(filled(v.drop_last()), v.last().0, v.last().1)
    } else {
        filled(v.drop_last())
    }
}

/// The best `n` bids: the highest.
pub open spec fn top_bids(m: Seq<(i64, i64)>, n: nat) -> Seq<(i64, i64)> {
    if m.len() > n {
        m.skip(m.len() - n)
    } else {
        m
    }
}

/// The bids under the best `n`, as removals, from the lowest up.
pub open spec fn cut_bids(m: Seq<(i64, i64)>, n: nat) -> Seq<(i64, i64)> {
    if m.len() > n {
        Seq::new((m.len() - n) as nat, |i: int| (m[i].0, 0i64))
    } else {
        Seq::empty()
    }
}

/// The best `n` asks: the lowest.
pub open spec fn top_asks(m: Seq<(i64, i64)>, n: nat) -> Seq<(i64, i64)> {
    if m.len() > n {
        m.take(n as int)
    } else {
        m
    }
}

/// The asks over the best `n`, as removals, from the highest down.
pub open spec fn cut_asks(m: Seq<(i64, i64)>, n: nat) -> Seq<(i64, i64)> {
    if m.len() > n {
        Seq::new((m.len() - n) as nat, |i: int| (m[m.len() - 1 - i].0, 0i64))
    } else {
        Seq::empty()
    }
}

/// A raw value in the digits of its precision, without point nor leading zeros.
pub open spec fn digits_of(raw: i64, div: i64) -> Option<Seq<char>> {
    if div <= 0 || raw as int % div as int != 0 {
        None
    } else if raw == 0 {
        Some(Seq::empty())
    } else {
        Some(int_text(raw as int / div as int))
    }
}

/// The digits of some levels, in order.
pub open spec fn side_text(v: Seq<(i64, i64)>, price_div: i64, qty_div: i64) -> Option<Seq<char>>
    decreases v.len(),
{
    if v.len() == 0 {
        Some(Seq::empty())
    } else {
        match side_text(v.drop_last(), price_div, qty_div) {
            None => None,
            Some(t) => match (digits_of(v.last().0, price_div), digits_of(v.last().1, qty_div)) {
                (Some(p), Some(q)) => Some(t + p + q),
                _ => None,
            },
        }
    }
}

/// The ten best asks and then the ten best bids, best first.
pub open spec fn best_ten(bids: Seq<(i64, i64)>, asks: Seq<(i64, i64)>) -> Seq<(i64, i64)> {
    let a = if asks.len() > 10 {
        10
    } else {
        asks.len()
    };
    let b = if bids.len() > 10 {
        10
    } else {
        bids.len()
    };
    asks.take(a as int) + Seq::new(b, |i: int| bids[bids.len() - 1 - i])
}

/// The checksum of the mirror, unless a level does not fit its precision.
pub open spec fn checksum_of(s: KrakenState) -> Option<u32> {
    match side_text(best_ten(s.bids, s.asks), s.price_div, s.qty_div) {
        Some(t) => Some(crc_of(encode_utf8(t))),
        None => None,
    }
}

/// Raw levels as levels of an event.
pub open spec fn as_levels(v: Seq<(i64, i64)>) -> Seq<Level> {
    Seq::new(v.len(), |i: int| Level { px: Px(v[i].0), qty: Qty(v[i].1) })
}

/// Raw levels as levels of an event, from the last to the first.
pub open spec fn as_levels_down(v: Seq<(i64, i64)>) -> Seq<Level> {
    Seq::new(
        v.len(),
        |i: int| Level { px: Px(v[v.len() - 1 - i].0), qty: Qty(v[v.len() - 1 - i].1) },
    )
}

/// The state with the mirror after a message, trimmed.
pub open spec fn mirrored(
    s: KrakenState,
    snapshot: bool,
    bids: Seq<(i64, i64)>,
    asks: Seq<(i64, i64)>,
) -> KrakenState {
    let b = if snapshot {
        filled(bids)
    } else {
        changed(s.bids, bids)
    };
    let a = if snapshot {
        filled(asks)
    } else {
        changed(s.asks, asks)
    };
    KrakenState { bids: top_bids(b, s.n), asks: top_asks(a, s.n), ..s }
}

/// The event of a message whose checksum agreed; `t` is the state after it.
pub open spec fn book_event(
    s: KrakenState,
    t: KrakenState,
    snapshot: bool,
    bids: Seq<(i64, i64)>,
    asks: Seq<(i64, i64)>,
    ts: u64,
    rx: RxStamp,
) -> EventView {
    if snapshot {
        EventView::Snapshot(
            SnapView {
                last_update_id: t.counter,
                limit: s.n,
                bids: as_levels_down(t.bids),
                asks: as_levels(t.asks),
                exch_ts_ms: Some(ts),
                rolling: true,
                rx,
            },
        )
    } else {
        EventView::Depth(
            DiffView {
                first_id: t.counter,
                last_id: t.counter,
                prev_last_id: Some((t.counter - 1) as u64),
                exch_ts_ms: ts,
                match_ts_ms: None,
                bids: as_levels(bids + cut_bids(changed(s.bids, bids), s.n)),
                asks: as_levels(asks + cut_asks(changed(s.asks, asks), s.n)),
                rx,
            },
        )
    }
}

/// What some messages do: as a frame, and whether what follows in it is passed over.
#[verifier::ext_equal]
pub struct Pass {
    /// What was done.
    pub done: Parsed<KrakenState>,
    /// A checksum disagreed: the rest of the frame is passed over.
    pub stop: bool,
}

/// What a book message does, with its time and raw levels read.
pub open spec fn levels_next(
    s: KrakenState,
    snapshot: bool,
    bids: Seq<(i64, i64)>,
    asks: Seq<(i64, i64)>,
    checksum: u32,
    ts: u64,
    rx: RxStamp,
) -> Pass {
    if !snapshot && s.awaiting {
        Pass {
            done: Parsed { state: s, events: Seq::empty(), outcome: Ok(()) },
            stop: false,
        }
    } else {
        let m = mirrored(s, snapshot, bids, asks);
        if checksum_of(m) != Some(checksum) {
            Pass {
                done: Parsed {
                    state: KrakenState {
                        checksum_bad: clamp_u64(m.checksum_bad + 1) as u64,
                        awaiting: true,
                        resync: true,
                        ..m
                    },
                    events: Seq::empty(),
                    outcome: Ok(()),
                },
                stop: true,
            }
        } else {
            let t = KrakenState {
                checksum_ok: clamp_u64(m.checksum_ok + 1) as u64,
                counter: clamp_u64(m.counter + 1) as u64,
                awaiting: s.awaiting && !snapshot,
                ..m
            };
            Pass {
                done: Parsed {
                    state: t,
                    events: seq![book_event(s, t, snapshot, bids, asks, ts, rx)],
                    outcome: Ok(()),
                },
                stop: false,
            }
        }
    }
}

/// What a book message does.
pub open spec fn book_next(s: KrakenState, snapshot: bool, b: BookSeen, rx: RxStamp) -> Pass {
    let ts = match b.timestamp {
        Some(t) => stamp_ms(t),
        None => Some(0int),
    };
    let bids = raw_levels(b.bids);
    let asks = raw_levels(b.asks);
    if ts is None {
        Pass {
            done: Parsed {
                state: s,
                events: Seq::empty(),
                outcome: Err(bad_stamp(b.timestamp->0)),
            },
            stop: false,
        }
    } else if bids is Err {
        Pass {
            done: Parsed { state: s, events: Seq::empty(), outcome: Err(bids->Err_0) },
            stop: false,
        }
    } else if asks is Err {
        Pass {
            done: Parsed { state: s, events: Seq::empty(), outcome: Err(asks->Err_0) },
            stop: false,
        }
    } else {
        levels_next(s, snapshot, bids->Ok_0, asks->Ok_0, b.checksum, ts->0 as u64, rx)
    }
}

/// What the book messages of a frame do, up to the first that is refused or whose
/// checksum disagrees.
pub open spec fn books_next(s: KrakenState, snapshot: bool, v: Seq<BookSeen>, rx: RxStamp) -> Pass
    decreases v.len(),
{
    if v.len() == 0 {
        Pass {
            done: Parsed { state: s, events: Seq::empty(), outcome: Ok(()) },
            stop: false,
        }
    } else {
        let p = books_next(s, snapshot, v.drop_last(), rx);
        if p.stop || p.done.outcome is Err {
            p
        } else {
            let q = book_next(p.done.state, snapshot, v.last(), rx);
            Pass {
                done: Parsed { events: p.done.events + q.done.events, ..q.done },
                stop: q.stop,
            }
        }
    }
}

/// The trade of a message, or why it is refused.
pub open spec fn trade_event(t: TradeSeen, rx: RxStamp) -> Result<EventView, Seq<char>> {
    let ts = stamp_ms(t.timestamp);
    let px = num_of(t.price);
    let qty = num_of(t.qty);
    if ts is None {
        Err(bad_stamp(t.timestamp))
    } else if px is Err {
        Err(px->Err_0)
    } else if qty is Err {
        Err(qty->Err_0)
    } else if t.side != "buy"@ && t.side != "sell"@ {
        Err("side desconocido: "@ + t.side)
    } else {
        Ok(
            EventView::Trade(
                AggTrade {
                    agg_id: t.trade_id,
                    first_trade_id: t.trade_id,
                    last_trade_id: t.trade_id,
                    px: Px(px->Ok_0),
                    qty: Qty(qty->Ok_0),
                    qty_normal: None,
                    aggressor: if t.side == "buy"@ {
                        Aggressor::Buy
                    } else {
                        Aggressor::Sell
                    },
                    trade_ts_ms: ts->0 as u64,
                    exch_ts_ms: ts->0 as u64,
                    rx,
                },
            ),
        )
    }
}

/// The events of some trades, up to the first that is refused.
pub open spec fn trades_next(v: Seq<TradeSeen>, rx: RxStamp) -> (
    Seq<EventView>,
    Result<(), Seq<char>>,
)
    decreases v.len(),
{
    if v.len() == 0 {
        (Seq::empty(), Ok(()))
    } else {
        let (ev, r) = trades_next(v.drop_last(), rx);
        if r is Err {
            (ev, r)
        } else {
            match trade_event(v.last(), rx) {
                Ok(e) => (ev.push(e), Ok(())),
                Err(e) => (ev, Err(e)),
            }
        }
    }
}

/// What a message with its envelope read does.
pub open spec fn message_next(s: KrakenState, env: EnvelopeSeen, rx: RxStamp) -> Parsed<
    KrakenState,
> {
    let quiet = Parsed { state: s, events: Seq::empty(), outcome: Ok(()) };
    if env.method is Some {
        if env.success == Some(false) {
            Parsed {
                outcome: Err(
                    "Kraken rechazó "@ + env.method->0 + ": "@ + (match env.error {
                        Some(m) => m,
                        None => ""@,
                    }),
                ),
                ..quiet
            }
        } else {
            quiet
        }
    } else if env.data is None {
        quiet
    } else if env.channel == Some("book"@) && s.depth {
        match json_array(env.data->0) {
            Err(e) => Parsed { outcome: Err(e), ..quiet },
            Ok(items) => match books_of(items) {
                Err(e) => Parsed { outcome: Err(e), ..quiet },
                Ok(v) => books_next(s, env.kind == Some("snapshot"@), v, rx).done,
            },
        }
    } else if env.channel == Some("trade"@) && env.kind == Some("update"@) {
        match json_array(env.data->0) {
            Err(e) => Parsed { outcome: Err(e), ..quiet },
            Ok(items) => match trades_of(items) {
                Err(e) => Parsed { outcome: Err(e), ..quiet },
                Ok(v) => {
                    let (events, outcome) = trades_next(v, rx);
                    Parsed { state: s, events, outcome }
                },
            },
        }
    } else {
        quiet
    }
}

/// What a frame does.
pub open spec fn frame_next(s: KrakenState, text: Seq<char>, rx: RxStamp) -> Parsed<KrakenState> {
    match envelope_of(text) {
        Err(e) => Parsed { state: s, events: Seq::empty(), outcome: Err(e) },
        Ok(env) => message_next(s, env, rx),
    }
}

/// A request on a channel; a subscription to the book gives its depth.
pub open spec fn request_text(s: KrakenState, method: Seq<char>, channel: Seq<char>) -> Seq<char> {
    "{\"method\":\""@ + method + "\",\"params\":{\"channel\":\""@ + channel + "\","@ + (if channel
        == "book"@ && method == "subscribe"@ {
        "\"depth\":"@ + int_text(s.n as int) + ","@
    } else {
        ""@
    }) + "\"symbol\":["@ + json_quoted(s.symbol) + "]}}"@
}

proof fn lemma_raw_levels_stop(v: Seq<QuoteSeen>, i: int)
    requires
        0 <= i <= v.len(),
        raw_levels(v.take(i)) is Err,
    ensures
        raw_levels(v) == raw_levels(v.take(i)),
    decreases v.len() - i,
{
    if i < v.len() {
        assert(v.take(i + 1).drop_last() =~= v.take(i));
        lemma_raw_levels_stop(v, i + 1);
    } else {
        assert(v.take(i) =~= v);
    }
}

proof fn lemma_side_stops(v: Seq<(i64, i64)>, price_div: i64, qty_div: i64, i: int)
    requires
        0 <= i <= v.len(),
        side_text(v.take(i), price_div, qty_div) is None,
    ensures
        side_text(v, price_div, qty_div) is None,
    decreases v.len() - i,
{
    if i < v.len() {
        assert(v.take(i + 1).drop_last() =~= v.take(i));
        lemma_side_stops(v, price_div, qty_div, i + 1);
    } else {
        assert(v.take(i) =~= v);
    }
}

proof fn lemma_books_stop(s: KrakenState, snapshot: bool, v: Seq<BookSeen>, rx: RxStamp, i: int)
    requires
        0 <= i <= v.len(),
        books_next(s, snapshot, v.take(i), rx).stop || books_next(
            s,
            snapshot,
            v.take(i),
            rx,
        ).done.outcome is Err,
    ensures
        books_next(s, snapshot, v, rx) == books_next(s, snapshot, v.take(i), rx),
    decreases v.len() - i,
{
    if i < v.len() {
        assert(v.take(i + 1).drop_last() =~= v.take(i));
        lemma_books_stop(s, snapshot, v, rx, i + 1);
    } else {
        assert(v.take(i) =~= v);
    }
}

proof fn lemma_trades_stop(v: Seq<TradeSeen>, rx: RxStamp, i: int)
    requires
        0 <= i <= v.len(),
        trades_next(v.take(i), rx).1 is Err,
    ensures
        trades_next(v, rx) == trades_next(v.take(i), rx),
    decreases v.len() - i,
{
    if i < v.len() {
        assert(v.take(i + 1).drop_last() =~= v.take(i));
        lemma_trades_stop(v, rx, i + 1);
    } else {
        assert(v.take(i) =~= v);
    }
}

fn num(t: &str) -> (r: Result<i64, String>)
    ensures
        seen(r) == num_of(t@),
{
    match parse_json_number8(t) {
        Ok(v) => Ok(v),
        Err(e) => Err(refused("número ", t, e)),
    }
}

/// The raw levels of a side.
pub fn read_raw_levels(v: &Vec<QuoteWire>) -> (r: Result<Vec<(i64, i64)>, String>)
    ensures
        raw_levels(v.deep_view()) == (match r {
            Ok(l) => Ok(l@),
            Err(e) => Err(e@),
        }),
{
    let ghost d = v.deep_view();
    let mut out: Vec<(i64, i64)> = Vec::new();
    let mut i: usize = 0;
    assert(d.take(0) =~= Seq::<QuoteSeen>::empty());
    assert(out@ =~= Seq::<(i64, i64)>::empty());
    while i < v.len()
        invariant
            i <= v.len(),
            d == v.deep_view(),
            d.len() == v.len(),
            raw_levels(d.take(i as int)) == Ok::<Seq<(i64, i64)>, Seq<char>>(out@),
        decreases v.len() - i,
    {
        proof {
            assert(d.take(i + 1).drop_last() =~= d.take(i as int));
            assert(d.take(i + 1).last() == v[i as int].deep_view());
            if raw_levels(d.take(i + 1)) is Err {
                lemma_raw_levels_stop(d, i + 1);
            }
        }
        let p = match num(v[i].price.as_str()) {
            Ok(p) => p,
            Err(e) => return Err(e),
        };
        let q = match num(v[i].qty.as_str()) {
            Ok(q) => q,
            Err(e) => return Err(e),
        };
        out.push((p, q));
        i += 1;
    }
    assert(d.take(i as int) =~= d);
    Ok(out)
}

fn to_levels(v: &Vec<(i64, i64)>) -> (r: Vec<Level>)
    ensures
        r@ == as_levels(v@),
{
    let mut out: Vec<Level> = Vec::new();
    let mut i: usize = 0;
    while i < v.len()
        invariant
            i <= v.len(),
            out@ == as_levels(v@.take(i as int)),
        decreases v.len() - i,
    {
        out.push(Level { px: Px::from_raw(v[i].0), qty: Qty::from_raw(v[i].1) });
        i += 1;
        assert(out@ =~= as_levels(v@.take(i as int)));
    }
    assert(v@.take(i as int) =~= v@);
    out
}

fn levels_up(m: &SortedMap<i64, i64>) -> (r: Vec<Level>)
    ensures
        r@ == as_levels(m@),
{
    let mut out: Vec<Level> = Vec::new();
    let mut i: usize = 0;
    let n = m.len();
    while i < n
        invariant
            i <= n,
            n == m@.len(),
            out@ == as_levels(m@.take(i as int)),
        decreases n - i,
    {
        out.push(Level { px: Px::from_raw(*m.key_at(i)), qty: Qty::from_raw(*m.value_at(i)) });
        i += 1;
        assert(out@ =~= as_levels(m@.take(i as int)));
    }
    assert(m@.take(i as int) =~= m@);
    out
}

fn levels_down(m: &SortedMap<i64, i64>) -> (r: Vec<Level>)
    ensures
        r@ == as_levels_down(m@),
{
    let mut out: Vec<Level> = Vec::new();
    let mut i: usize = 0;
    let n = m.len();
    while i < n
        invariant
            i <= n,
            n == m@.len(),
            out@ == as_levels_down(m@).take(i as int),
        decreases n - i,
    {
        let k: usize = n - 1 - i;
        out.push(Level { px: Px::from_raw(*m.key_at(k)), qty: Qty::from_raw(*m.value_at(k)) });
        i += 1;
        assert(out@ =~= as_levels_down(m@).take(i as int));
    }
    assert(as_levels_down(m@).take(i as int) =~= as_levels_down(m@));
    out
}

fn apply(m: &mut SortedMap<i64, i64>, v: &Vec<(i64, i64)>)
    ensures
        final(m)@ == changed(old(m)@, v@),
{
    let mut i: usize = 0;
    assert(v@.take(0) =~= Seq::<(i64, i64)>::empty());
    while i < v.len()
        invariant
            i <= v.len(),
            m@ == changed(old(m)@, v@.take(i as int)),
        decreases v.len() - i,
    {
        assert(v@.take(i + 1).drop_last() =~= v@.take(i as int));
        let (p, q) = v[i];
        if q == 0 {
            m.remove(&p);
        } else {
            m.insert(p, q);
        }
        i += 1;
    }
    assert(v@.take(i as int) =~= v@);
}

fn fill(v: &Vec<(i64, i64)>) -> (r: SortedMap<i64, i64>)
    ensures
        r@ == filled(v@),
{
    let mut m: SortedMap<i64, i64> = SortedMap::new();
    let mut i: usize = 0;
    assert(v@.take(0) =~= Seq::<(i64, i64)>::empty());
    while i < v.len()
        invariant
            i <= v.len(),
            m@ == filled(v@.take(i as int)),
        decreases v.len() - i,
    {
        assert(v@.take(i + 1).drop_last() =~= v@.take(i as int));
        let (p, q) = v[i];
        if q > 0 {
            m.insert(p, q);
        }
        i += 1;
    }
    assert(v@.take(i as int) =~= v@);
    m
}

fn trim_bids(m: &mut SortedMap<i64, i64>, n: usize) -> (r: Vec<(i64, i64)>)
    ensures
        final(m)@ == top_bids(old(m)@, n as nat),
        r@ == cut_bids(old(m)@, n as nat),
{
    let ghost m0 = m@;
    let mut cut: Vec<(i64, i64)> = Vec::new();
    assert(m0.skip(0) =~= m0);
    while m.len() > n
        invariant
            cut.len() <= m0.len(),
            m@ == m0.skip(cut.len() as int),
            m@.len() >= n || m@ == m0,
            forall|i: int| 0 <= i < cut.len() ==> #[trigger] cut[i] == (m0[i].0, 0i64),
        decreases m@.len(),
    {
        let ghost was = m@;
        if let Some((p, _q)) = m.pop_first() {
            cut.push((p, 0));
            assert(was.skip(1) =~= m0.skip(cut.len() as int));
        }
    }
    assert(cut@ =~= cut_bids(m0, n as nat));
    assert(m@ =~= top_bids(m0, n as nat));
    cut
}

fn trim_asks(m: &mut SortedMap<i64, i64>, n: usize) -> (r: Vec<(i64, i64)>)
    ensures
        final(m)@ == top_asks(old(m)@, n as nat),
        r@ == cut_asks(old(m)@, n as nat),
{
    let ghost m0 = m@;
    let mut cut: Vec<(i64, i64)> = Vec::new();
    assert(m0.take(m0.len() as int) =~= m0);
    while m.len() > n
        invariant
            cut.len() <= m0.len(),
            m@ == m0.take(m0.len() - cut.len()),
            m@.len() >= n || m@ == m0,
            forall|i: int|
                0 <= i < cut.len() ==> #[trigger] cut[i] == (m0[m0.len() - 1 - i].0, 0i64),
        decreases m@.len(),
    {
        let ghost was = m@;
        if let Some((p, _q)) = m.pop_last() {
            cut.push((p, 0));
            assert(was.drop_last() =~= m0.take(m0.len() - cut.len()));
        }
    }
    assert(cut@ =~= cut_asks(m0, n as nat));
    assert(m@ =~= top_asks(m0, n as nat));
    cut
}

/// Division by a positive number is the same on both sides of zero where it is exact.
proof fn lemma_exact_negative(m: int, d: int)
    requires
        d > 0,
    ensures
        (m % d == 0) == ((-m) % d == 0),
        m % d == 0 ==> (-m) / d == -(m / d),
{
    vstd::arithmetic::div_mod::lemma_fundamental_div_mod(m, d);
    vstd::arithmetic::div_mod::lemma_fundamental_div_mod(-m, d);
    if m % d == 0 {
        let q = m / d;
        assert(-m == (-q) * d + 0) by (nonlinear_arith)
            requires
                m == d * q + 0,
        ;
        vstd::arithmetic::div_mod::lemma_fundamental_div_mod_converse(-m, d, -q, 0);
    }
    if (-m) % d == 0 {
        let q = (-m) / d;
        assert(m == (-q) * d + 0) by (nonlinear_arith)
            requires
                -m == d * q + 0,
        ;
        vstd::arithmetic::div_mod::lemma_fundamental_div_mod_converse(m, d, -q, 0);
    }
}

fn push_digits(out: &mut String, raw: i64, div: i64) -> (r: bool)
    ensures
        r == digits_of(raw, div) is Some,
        r ==> final(out)@ == old(out)@ + digits_of(raw, div)->0,
{
    if div <= 0 {
        return false;
    }
    let d: i128 = div as i128;
    let negative = raw < 0;
    let m: i128 = if negative {
        -(raw as i128)
    } else {
        raw as i128
    };
    proof {
        lemma_exact_negative(m as int, d as int);
    }
    if m % d != 0 {
        return false;
    }
    if raw == 0 {
        assert(out@ + Seq::<char>::empty() =~= out@);
        return true;
    }
    let q: i128 = m / d;
    push_int(
        out,
        if negative {
            -q
        } else {
            q
        },
    );
    true
}

/// The trade of a message.
pub fn read_trade_event(t: &TradeWire, rx: RxStamp) -> (r: Result<MarketEvent, String>)
    ensures
        match r {
            Ok(e) => trade_event(t.deep_view(), rx) == Ok::<EventView, Seq<char>>(e@),
            Err(e) => trade_event(t.deep_view(), rx) == Err::<EventView, Seq<char>>(e@),
        },
{
    let ts = match rfc3339_ms(t.timestamp.as_str()) {
        Ok(v) => v,
        Err(e) => return Err(e),
    };
    let px = match num(t.price.as_str()) {
        Ok(v) => v,
        Err(e) => return Err(e),
    };
    let qty = match num(t.qty.as_str()) {
        Ok(v) => v,
        Err(e) => return Err(e),
    };
    let aggressor = if same_text(t.side.as_str(), "buy") {
        Aggressor::Buy
    } else if same_text(t.side.as_str(), "sell") {
        Aggressor::Sell
    } else {
        let mut s = String::from_str("side desconocido: ");
        s.append(t.side.as_str());
        return Err(s);
    };
    Ok(
        MarketEvent::Trade(
            AggTrade {
                agg_id: t.trade_id,
                first_trade_id: t.trade_id,
                last_trade_id: t.trade_id,
                px: Px::from_raw(px),
                qty: Qty::from_raw(qty),
                qty_normal: None,
                aggressor,
                trade_ts_ms: ts,
                exch_ts_ms: ts,
                rx,
            },
        ),
    )
}

/// The events of some trades, up to the first that is refused.
pub fn on_trades(v: &Vec<TradeWire>, rx: RxStamp, out: &mut Vec<MarketEvent>) -> (r: Result<
    (),
    String,
>)
    ensures
        ({
            let (ev, o) = trades_next(v.deep_view(), rx);
            &&& events_of(final(out)@) == events_of(old(out)@) + ev
            &&& said(r) == o
        }),
{
    let ghost d = v.deep_view();
    let ghost before = events_of(out@);
    let mut i: usize = 0;
    assert(d.take(0) =~= Seq::<TradeSeen>::empty());
    assert(before + Seq::<EventView>::empty() =~= before);
    while i < v.len()
        invariant
            i <= v.len(),
            d == v.deep_view(),
            d.len() == v.len(),
            before == events_of(old(out)@),
            trades_next(d.take(i as int), rx).1 is Ok,
            events_of(out@) == before + trades_next(d.take(i as int), rx).0,
        decreases v.len() - i,
    {
        let ghost done = trades_next(d.take(i as int), rx).0;
        proof {
            assert(d.take(i + 1).drop_last() =~= d.take(i as int));
            assert(d.take(i + 1).last() == v[i as int].deep_view());
        }
        match read_trade_event(&v[i], rx) {
            Ok(e) => {
                let ghost was = out@;
                out.push(e);
                assert(events_of(out@) =~= events_of(was).push(e@));
                assert(events_of(out@) =~= before + done.push(e@));
            },
            Err(e) => {
                proof {
                    lemma_trades_stop(d, rx, i + 1);
                }
                return Err(e);
            },
        }
        i += 1;
    }
    assert(d.take(i as int) =~= d);
    Ok(())
}

/// Whether a text is the given one.
fn is_kind(kind: &Option<String>, what: &str) -> (r: bool)
    ensures
        r == (kind.deep_view() == Some(what@)),
{
    match kind {
        Some(k) => same_text(k.as_str(), what),
        None => false,
    }
}

/// `10^(8 - dec)`, zero where there are more decimals than a raw value has.
pub open spec fn divisor_of(dec: u32) -> i64 {
    if dec <= DECIMALS {
        pow10((DECIMALS - dec) as nat) as i64
    } else {
        0
    }
}

fn divisor(dec: u32) -> (r: i64)
    ensures
        r == divisor_of(dec),
        dec <= DECIMALS ==> r == pow10((DECIMALS - dec) as nat),
{
    proof {
        reveal_with_fuel(pow10, 9);
    }
    match dec {
        0 => 100_000_000,
        1 => 10_000_000,
        2 => 1_000_000,
        3 => 100_000,
        4 => 10_000,
        5 => 1_000,
        6 => 100,
        7 => 10,
        8 => 1,
        _ => 0,
    }
}

impl KrakenProtocol {
    /// What the protocol holds.
    pub closed spec fn content(&self) -> KrakenState {
        KrakenState {
            symbol: self.symbol@,
            depth: self.depth,
            n: self.n as nat,
            price_div: self.price_div,
            qty_div: self.qty_div,
            counter: self.counter,
            awaiting: self.awaiting,
            resync: self.resync,
            bids: self.bids@,
            asks: self.asks@,
            checksum_ok: self.checksum_ok,
            checksum_bad: self.checksum_bad,
        }
    }

    /// A pair such as `SOL/USD`, the levels per side that the venue keeps, and the
    /// precision of the pair for the checksum, which only a line with depth reads.
    pub fn new(symbol: &str, depth: bool, depth_levels: usize, price_dec: u32, qty_dec: u32) -> (r:
        Self)
        requires
            depth ==> price_dec <= DECIMALS && qty_dec <= DECIMALS,
        ensures
            r.content() == (KrakenState {
                symbol: symbol@,
                depth,
                n: depth_levels as nat,
                price_div: divisor_of(price_dec),
                qty_div: divisor_of(qty_dec),
                counter: 0,
                awaiting: true,
                resync: false,
                bids: Seq::empty(),
                asks: Seq::empty(),
                checksum_ok: 0,
                checksum_bad: 0,
            }),
    {
        KrakenProtocol {
            symbol: String::from_str(symbol),
            depth,
            n: depth_levels,
            price_div: divisor(price_dec),
            qty_div: divisor(qty_dec),
            counter: 0,
            awaiting: true,
            resync: false,
            bids: SortedMap::new(),
            asks: SortedMap::new(),
            checksum_ok: 0,
            checksum_bad: 0,
        }
    }

    /// Checksums of this connection that agreed, and that did not.
    pub fn checksum_stats(&self) -> (r: (u64, u64))
        ensures
            r == (self.content().checksum_ok, self.content().checksum_bad),
    {
        (self.checksum_ok, self.checksum_bad)
    }

    /// The checksum of the mirror.
    pub fn checksum(&self) -> (r: Option<u32>)
        ensures
            r == checksum_of(self.content()),
    {
        let mut t = String::new();
        let ghost all = best_ten(self.bids@, self.asks@);
        let na = self.asks.len();
        let a: usize = if na > 10 {
            10
        } else {
            na
        };
        let nb = self.bids.len();
        let b: usize = if nb > 10 {
            10
        } else {
            nb
        };
        let mut i: usize = 0;
        assert(t@ =~= Seq::<char>::empty());
        assert(all.take(0) =~= Seq::<(i64, i64)>::empty());
        while i < a + b
            invariant
                i <= a + b,
                a <= 10,
                b <= 10,
                na == self.asks@.len(),
                nb == self.bids@.len(),
                a <= na,
                b <= nb,
                all == best_ten(self.bids@, self.asks@),
                all.len() == a + b,
                a == (if na > 10 {
                    10
                } else {
                    na
                }),
                side_text(all.take(i as int), self.price_div, self.qty_div) == Some(t@),
            decreases a + b - i,
        {
            proof {
                assert(all.take(i + 1).drop_last() =~= all.take(i as int));
                if side_text(all.take(i + 1), self.price_div, self.qty_div) is None {
                    lemma_side_stops(all, self.price_div, self.qty_div, i + 1);
                }
            }
            let (p, q) = if i < a {
                (*self.asks.key_at(i), *self.asks.value_at(i))
            } else {
                let k: usize = nb - 1 - (i - a);
                (*self.bids.key_at(k), *self.bids.value_at(k))
            };
            assert((p, q) == all[i as int]);
            if !push_digits(&mut t, p, self.price_div) {
                return None;
            }
            if !push_digits(&mut t, q, self.qty_div) {
                return None;
            }
            i += 1;
        }
        assert(all.take(i as int) =~= all);
        Some(crc32(t.as_str().as_bytes()))
    }

    /// What a book message does, with its time and raw levels read: whether the rest of
    /// the frame is passed over.
    pub fn on_levels(
        &mut self,
        snapshot: bool,
        bids: Vec<(i64, i64)>,
        asks: Vec<(i64, i64)>,
        checksum: u32,
        ts: u64,
        rx: RxStamp,
        out: &mut Vec<MarketEvent>,
    ) -> (r: bool)
        ensures
            ({
                let p = levels_next(old(self).content(), snapshot, bids@, asks@, checksum, ts, rx);
                &&& final(self).content() == p.done.state
                &&& events_of(final(out)@) == events_of(old(out)@) + p.done.events
                &&& r == p.stop
            }),
    {
        let ghost s = self.content();
        let ghost was = out@;
        assert(events_of(out@) + Seq::<EventView>::empty() =~= events_of(out@));
        if !snapshot && self.awaiting {
            return false;
        }
        if snapshot {
            self.bids = fill(&bids);
            self.asks = fill(&asks);
        } else {
            apply(&mut self.bids, &bids);
            apply(&mut self.asks, &asks);
        }
        let n: usize = self.n;
        let mut removed_b = trim_bids(&mut self.bids, n);
        let mut removed_a = trim_asks(&mut self.asks, n);
        let ghost m = mirrored(s, snapshot, bids@, asks@);
        assert(self.content() == m);
        let agrees = match self.checksum() {
            Some(c) => c == checksum,
            None => false,
        };
        if !agrees {
            self.checksum_bad = self.checksum_bad.saturating_add(1);
            self.awaiting = true;
            self.resync = true;
            return true;
        }
        self.checksum_ok = self.checksum_ok.saturating_add(1);
        self.counter = self.counter.saturating_add(1);
        if snapshot {
            self.awaiting = false;
            let e = MarketEvent::Snapshot(
                DepthSnapshot {
                    last_update_id: self.counter,
                    limit: n,
                    rolling: true,
                    bids: levels_down(&self.bids),
                    asks: levels_up(&self.asks),
                    exch_ts_ms: Some(ts),
                    rx,
                },
            );
            out.push(e);
            assert(events_of(out@) =~= events_of(was) + seq![e@]);
        } else {
            let mut bl = bids;
            bl.append(&mut removed_b);
            let mut al = asks;
            al.append(&mut removed_a);
            let e = MarketEvent::Depth(
                DepthDiff {
                    first_id: self.counter,
                    last_id: self.counter,
                    prev_last_id: Some(self.counter - 1),
                    exch_ts_ms: ts,
                    match_ts_ms: None,
                    bids: to_levels(&bl),
                    asks: to_levels(&al),
                    rx,
                },
            );
            out.push(e);
            assert(events_of(out@) =~= events_of(was) + seq![e@]);
        }
        false
    }

    /// What a book message does: whether the rest of the frame is passed over.
    pub fn on_book(
        &mut self,
        snapshot: bool,
        b: &BookWire,
        rx: RxStamp,
        out: &mut Vec<MarketEvent>,
    ) -> (r: Result<bool, String>)
        ensures
            ({
                let p = book_next(old(self).content(), snapshot, b.deep_view(), rx);
                &&& final(self).content() == p.done.state
                &&& events_of(final(out)@) == events_of(old(out)@) + p.done.events
                &&& match r {
                    Ok(stop) => p.done.outcome is Ok && stop == p.stop,
                    Err(e) => p.done.outcome == Err::<(), Seq<char>>(e@) && !p.stop,
                }
            }),
    {
        assert(events_of(out@) + Seq::<EventView>::empty() =~= events_of(out@));
        let ts: u64 = match &b.timestamp {
            Some(t) => match rfc3339_ms(t.as_str()) {
                Ok(v) => v,
                Err(e) => return Err(e),
            },
            None => 0,
        };
        let bids = match read_raw_levels(&b.bids) {
            Ok(v) => v,
            Err(e) => return Err(e),
        };
        let asks = match read_raw_levels(&b.asks) {
            Ok(v) => v,
            Err(e) => return Err(e),
        };
        Ok(self.on_levels(snapshot, bids, asks, b.checksum, ts, rx, out))
    }

    /// What the book messages of a frame do.
    pub fn on_books(
        &mut self,
        snapshot: bool,
        v: &Vec<BookWire>,
        rx: RxStamp,
        out: &mut Vec<MarketEvent>,
    ) -> (r: Result<(), String>)
        ensures
            ({
                let p = books_next(old(self).content(), snapshot, v.deep_view(), rx);
                &&& final(self).content() == p.done.state
                &&& events_of(final(out)@) == events_of(old(out)@) + p.done.events
                &&& said(r) == p.done.outcome
            }),
    {
        let ghost d = v.deep_view();
        let ghost before = events_of(out@);
        let ghost s = self.content();
        let mut i: usize = 0;
        assert(d.take(0) =~= Seq::<BookSeen>::empty());
        assert(before + Seq::<EventView>::empty() =~= before);
        while i < v.len()
            invariant
                i <= v.len(),
                d == v.deep_view(),
                d.len() == v.len(),
                before == events_of(old(out)@),
                s == old(self).content(),
                books_next(s, snapshot, d.take(i as int), rx).done.outcome == Ok::<(), Seq<char>>(
                    (),
                ),
                !books_next(s, snapshot, d.take(i as int), rx).stop,
                self.content() == books_next(s, snapshot, d.take(i as int), rx).done.state,
                events_of(out@) == before + books_next(
                    s,
                    snapshot,
                    d.take(i as int),
                    rx,
                ).done.events,
            decreases v.len() - i,
        {
            proof {
                assert(d.take(i + 1).drop_last() =~= d.take(i as int));
                assert(d.take(i + 1).last() == v[i as int].deep_view());
            }
            let ghost next = books_next(s, snapshot, d.take(i + 1), rx);
            let r = self.on_book(snapshot, &v[i], rx, out);
            assert(events_of(out@) =~= before + next.done.events);
            match r {
                Ok(stop) => {
                    assert(next.done.outcome == Ok::<(), Seq<char>>(()));
                    if stop {
                        proof {
                            lemma_books_stop(s, snapshot, d, rx, i + 1);
                        }
                        return Ok(());
                    }
                },
                Err(e) => {
                    proof {
                        lemma_books_stop(s, snapshot, d, rx, i + 1);
                    }
                    return Err(e);
                },
            }
            i += 1;
        }
        assert(d.take(i as int) =~= d);
        Ok(())
    }

    /// What a message with its envelope read does.
    pub fn on_message(&mut self, env: &EnvelopeWire, rx: RxStamp, out: &mut Vec<MarketEvent>) -> (r:
        Result<(), String>)
        ensures
            ({
                let p = message_next(old(self).content(), env.deep_view(), rx);
                &&& final(self).content() == p.state
                &&& events_of(final(out)@) == events_of(old(out)@) + p.events
                &&& said(r) == p.outcome
            }),
    {
        assert(events_of(out@) + Seq::<EventView>::empty() =~= events_of(out@));
        if let Some(method) = &env.method {
            let failed = match env.success {
                Some(ok) => !ok,
                None => false,
            };
            if failed {
                let mut e = String::from_str("Kraken rechazó ");
                e.append(method.as_str());
                e.append(": ");
                match &env.error {
                    Some(m) => e.append(m.as_str()),
                    None => e.append(""),
                }
                return Err(e);
            }
            return Ok(());
        }
        let data = match &env.data {
            Some(d) => d,
            None => return Ok(()),
        };
        if is_kind(&env.channel, "book") && self.depth {
            let items = match read_array(data.as_str()) {
                Ok(v) => v,
                Err(e) => return Err(e),
            };
            match read_books(&items) {
                Ok(v) => self.on_books(is_kind(&env.kind, "snapshot"), &v, rx, out),
                Err(e) => Err(e),
            }
        } else if is_kind(&env.channel, "trade") && is_kind(&env.kind, "update") {
            let items = match read_array(data.as_str()) {
                Ok(v) => v,
                Err(e) => return Err(e),
            };
            match read_trades(&items) {
                Ok(v) => on_trades(&v, rx, out),
                Err(e) => Err(e),
            }
        } else {
            Ok(())
        }
    }

    fn request(&self, method: &str, channel: &str) -> (r: String)
        ensures
            r@ == request_text(self.content(), method@, channel@),
    {
        let mut s = String::from_str("{\"method\":\"");
        s.append(method);
        s.append("\",\"params\":{\"channel\":\"");
        s.append(channel);
        s.append("\",");
        if same_text(channel, "book") && same_text(method, "subscribe") {
            let mut d = String::from_str("\"depth\":");
            push_int(&mut d, self.n as i128);
            d.append(",");
            s.append(d.as_str());
        } else {
            s.append("");
        }
        s.append("\"symbol\":[");
        s.append(quoted(self.symbol.as_str()).as_str());
        s.append("]}}");
        s
    }
}

impl Protocol for KrakenProtocol {
    type State = KrakenState;

    closed spec fn state(&self) -> KrakenState {
        self.content()
    }

    open spec fn connect_next(s: KrakenState) -> (KrakenState, Seq<Seq<char>>) {
        let base = seq![request_text(s, "subscribe"@, "trade"@)];
        (
            KrakenState {
                awaiting: true,
                resync: false,
                bids: Seq::empty(),
                asks: Seq::empty(),
                ..s
            },
            if s.depth {
                base.push(request_text(s, "subscribe"@, "book"@))
            } else {
                base
            },
        )
    }

    open spec fn resubscribe_next(s: KrakenState) -> (KrakenState, Option<Seq<Seq<char>>>) {
        if !s.depth {
            (s, Some(Seq::empty()))
        } else {
            (
                KrakenState { awaiting: true, ..s },
                Some(
                    seq![
                        request_text(s, "unsubscribe"@, "book"@),
                        request_text(s, "subscribe"@, "book"@),
                    ],
                ),
            )
        }
    }

    open spec fn heartbeat(s: KrakenState) -> Option<(u64, Seq<char>)> {
        None
    }

    open spec fn parse_next(s: KrakenState, text: Seq<char>, rx: RxStamp) -> Parsed<KrakenState> {
        frame_next(s, text, rx)
    }

    open spec fn resync_next(s: KrakenState) -> (KrakenState, bool) {
        (KrakenState { resync: false, ..s }, s.resync)
    }

    fn on_connect(&mut self) -> (r: Vec<String>) {
        self.awaiting = true;
        self.resync = false;
        self.bids = SortedMap::new();
        self.asks = SortedMap::new();
        let mut v: Vec<String> = Vec::new();
        v.push(self.request("subscribe", "trade"));
        if self.depth {
            v.push(self.request("subscribe", "book"));
        }
        assert(v.deep_view() =~= Self::connect_next(old(self).state()).1);
        v
    }

    fn resubscribe(&mut self) -> (r: Option<Vec<String>>) {
        let mut v: Vec<String> = Vec::new();
        if self.depth {
            self.awaiting = true;
            v.push(self.request("unsubscribe", "book"));
            v.push(self.request("subscribe", "book"));
        }
        assert(v.deep_view() =~= Self::resubscribe_next(old(self).state()).1->0);
        Some(v)
    }

    fn keepalive(&self) -> (r: Option<(u64, &'static str)>) {
        None
    }

    fn parse(&mut self, text: &str, rx: RxStamp, out: &mut Vec<MarketEvent>) -> (r: Result<
        (),
        String,
    >) {
        assert(events_of(out@) + Seq::<EventView>::empty() =~= events_of(out@));
        match read_envelope(text) {
            Ok(env) => self.on_message(&env, rx, out),
            Err(e) => Err(e),
        }
    }

    fn take_resync(&mut self) -> (r: bool) {
        let r = self.resync;
        self.resync = false;
        r
    }
}

/// The raw values of an object, in the order of its keys.
pub open spec fn values_of(f: Seq<(Seq<char>, Seq<char>)>) -> Seq<Seq<char>> {
    Seq::new(f.len(), |i: int| f[i].1)
}

/// Texts joined by `; `.
pub open spec fn joined(v: Seq<Seq<char>>) -> Seq<char>
    decreases v.len(),
{
    if v.len() == 0 {
        Seq::empty()
    } else if v.len() == 1 {
        v[0]
    } else {
        joined(v.drop_last()) + "; "@ + v.last()
    }
}

/// The first pair with the given name.
pub open spec fn pair_named(v: Seq<PairSeen>, name: Seq<char>) -> Option<PairSeen>
    decreases v.len(),
{
    if v.len() == 0 {
        None
    } else if v[0].wsname == name {
        Some(v[0])
    } else {
        pair_named(v.skip(1), name)
    }
}

/// The precision of a pair out of the pairs of a reply, or why there is none.
pub open spec fn precision_in(v: Seq<PairSeen>, name: Seq<char>) -> Result<(u32, u32), Seq<char>> {
    match pair_named(v, name) {
        Some(p) => Ok((p.pair_decimals, p.lot_decimals)),
        None => Err("par "@ + name + " inexistente"@),
    }
}

/// The precision of a pair out of a reply, or why there is none.
pub open spec fn precision_of(text: Seq<char>, name: Seq<char>) -> Result<(u32, u32), Seq<char>> {
    match reply_of(text) {
        Err(e) => Err(e),
        Ok(r) => {
            let pairs = match r.result {
                None => Ok(Seq::empty()),
                Some(t) => match json_object(t) {
                    Err(e) => Err(e),
                    Ok(f) => pairs_of(values_of(f)),
                },
            };
            if pairs is Err {
                Err(pairs->Err_0)
            } else if r.error.len() > 0 {
                Err(joined(r.error))
            } else {
                precision_in(pairs->Ok_0, name)
            }
        },
    }
}

fn join(v: &Vec<String>) -> (r: String)
    ensures
        r@ == joined(v.deep_view()),
{
    let ghost d = v.deep_view();
    let mut s = String::new();
    let mut i: usize = 0;
    assert(d.take(0) =~= Seq::<Seq<char>>::empty());
    assert(s@ =~= Seq::<char>::empty());
    while i < v.len()
        invariant
            i <= v.len(),
            d == v.deep_view(),
            d.len() == v.len(),
            s@ == joined(d.take(i as int)),
        decreases v.len() - i,
    {
        assert(d.take(i + 1).drop_last() =~= d.take(i as int));
        assert(d.take(i + 1).last() == v[i as int]@);
        if i > 0 {
            s.append("; ");
        }
        let ghost before = s@;
        s.append(v[i].as_str());
        proof {
            if i == 0 {
                assert(s@ =~= v[0]@);
            }
        }
        i += 1;
    }
    assert(d.take(i as int) =~= d);
    s
}

/// Decimals of price and quantity of the pair `wsname` among those of a reply.
pub fn find_precision(v: &Vec<PairWire>, wsname: &str) -> (r: Result<(u32, u32), String>)
    ensures
        seen(r) == precision_in(v.deep_view(), wsname@),
{
    let ghost d = v.deep_view();
    let mut i: usize = 0;
    assert(d.skip(0) =~= d);
    while i < v.len()
        invariant
            i <= v.len(),
            d == v.deep_view(),
            d.len() == v.len(),
            pair_named(d, wsname@) == pair_named(d.skip(i as int), wsname@),
        decreases v.len() - i,
    {
        assert(d.skip(i as int)[0] == v[i as int].deep_view());
        if same_text(v[i].wsname.as_str(), wsname) {
            return Ok((v[i].pair_decimals, v[i].lot_decimals));
        }
        assert(d.skip(i as int).skip(1) =~= d.skip(i + 1));
        i += 1;
    }
    let mut e = String::from_str("par ");
    e.append(wsname);
    e.append(" inexistente");
    Err(e)
}

/// Decimals of price and quantity of the pair `wsname`, out of the text of a reply.
pub fn read_precision(text: &str, wsname: &str) -> (r: Result<(u32, u32), String>)
    ensures
        seen(r) == precision_of(text@, wsname@),
{
    let reply = match read_reply(text) {
        Ok(r) => r,
        Err(e) => return Err(e),
    };
    let pairs: Vec<PairWire> = match &reply.result {
        None => {
            let v: Vec<PairWire> = Vec::new();
            assert(v.deep_view() =~= Seq::<PairSeen>::empty());
            v
        },
        Some(t) => {
            let f = match read_object(t.as_str()) {
                Ok(f) => f,
                Err(e) => return Err(e),
            };
            let mut items: Vec<String> = Vec::new();
            let mut i: usize = 0;
            while i < f.len()
                invariant
                    i <= f.len(),
                    items.len() == i,
                    forall|j: int| 0 <= j < i ==> (#[trigger] items[j])@ == f[j].1@,
                decreases f.len() - i,
            {
                items.push(String::from_str(f[i].1.as_str()));
                i += 1;
            }
            assert(items.deep_view() =~= values_of(f.deep_view()));
            match read_pairs(&items) {
                Ok(v) => v,
                Err(e) => return Err(e),
            }
        },
    };
    if reply.error.len() > 0 {
        return Err(join(&reply.error));
    }
    find_precision(&pairs, wsname)
}

/// A depth event carries id `n`; a diff follows the id before it.
pub open spec fn numbered(e: EventView, n: int) -> bool {
    match e {
        EventView::Depth(d) => d.first_id == n && d.last_id == n && d.prev_last_id == Some(
            (n - 1) as u64,
        ),
        EventView::Snapshot(s) => s.last_update_id == n,
        _ => false,
    }
}

/// The depth of a line is numbered without gaps, and never goes back: each event of a
/// book message takes the next id. Where the line awaits a snapshot, the first depth
/// event that it gives is one. A checksum that disagrees voids the mirror and asks for a
/// snapshot.
pub proof fn law_depth_numbered(s: KrakenState, snapshot: bool, v: Seq<BookSeen>, rx: RxStamp)
    requires
        s.counter + v.len() <= u64::MAX,
    ensures
        ({
            let p = books_next(s, snapshot, v, rx);
            &&& p.done.events.len() <= v.len()
            &&& p.done.state.counter == s.counter + p.done.events.len()
            &&& forall|i: int|
                0 <= i < p.done.events.len() ==> numbered(
                    #[trigger] p.done.events[i],
                    s.counter + 1 + i,
                )
            &&& s.awaiting && p.done.events.len() > 0 ==> p.done.events[0] is Snapshot
            &&& s.awaiting && p.done.events.len() == 0 ==> p.done.state.awaiting
            &&& p.stop ==> p.done.state.awaiting && p.done.state.resync
        }),
    decreases v.len(),
{
    if v.len() > 0 {
        let u = v.drop_last();
        law_depth_numbered(s, snapshot, u, rx);
        let p = books_next(s, snapshot, u, rx);
        let n = books_next(s, snapshot, v, rx);
        if !(p.stop || p.done.outcome is Err) {
            let q = book_next(p.done.state, snapshot, v.last(), rx);
            assert(n.done.events =~= p.done.events + q.done.events);
        }
    }
}

/// Nothing unverified goes out: an event is given only where the checksum of the mirror
/// after the message is the one that the message carries.
pub proof fn law_only_verified_depth(
    s: KrakenState,
    snapshot: bool,
    bids: Seq<(i64, i64)>,
    asks: Seq<(i64, i64)>,
    checksum: u32,
    ts: u64,
    rx: RxStamp,
)
    ensures
        ({
            let p = levels_next(s, snapshot, bids, asks, checksum, ts, rx);
            p.done.events.len() > 0 ==> checksum_of(p.done.state) == Some(checksum)
        }),
{
    let p = levels_next(s, snapshot, bids, asks, checksum, ts, rx);
    if p.done.events.len() > 0 {
        let m = mirrored(s, snapshot, bids, asks);
        assert(p.done.state.bids == m.bids && p.done.state.asks == m.asks);
    }
}

pub(crate) proof fn lemma_changed_sorted(m: Seq<(i64, i64)>, v: Seq<(i64, i64)>)
    requires
        sorted(m),
    ensures
        sorted(changed(m, v)),
    decreases v.len(),
{
    if v.len() > 0 {
        lemma_changed_sorted(m, v.drop_last());
        let u = changed(m, v.drop_last());
        lemma_put(u, v.last().0, v.last().1);
        lemma_del(u, v.last().0);
    }
}

proof fn lemma_changed_joined(m: Seq<(i64, i64)>, v: Seq<(i64, i64)>, w: Seq<(i64, i64)>)
    ensures
        changed(m, v + w) == changed(changed(m, v), w),
    decreases w.len(),
{
    if w.len() == 0 {
        assert(v + w =~= v);
    } else {
        lemma_changed_joined(m, v, w.drop_last());
        assert((v + w).drop_last() =~= v + w.drop_last());
    }
}

/// Removing the lowest bids one by one leaves the rest.
proof fn lemma_cut_bids(m: Seq<(i64, i64)>, k: int)
    requires
        sorted(m),
        0 <= k <= m.len(),
    ensures
        changed(m, Seq::new(k as nat, |i: int| (m[i].0, 0i64))) == m.skip(k),
    decreases k,
{
    let v = Seq::new(k as nat, |i: int| (m[i].0, 0i64));
    if k == 0 {
        assert(m.skip(0) =~= m);
    } else {
        lemma_cut_bids(m, k - 1);
        assert(v.drop_last() =~= Seq::new((k - 1) as nat, |i: int| (m[i].0, 0i64)));
        let u = m.skip(k - 1);
        assert(sorted(u)) by {
            assert forall|i: int, j: int| 0 <= i < j < u.len() implies key_lt(
                #[trigger] u[i].0,
                #[trigger] u[j].0,
            ) by {
                assert(u[i] == m[i + k - 1] && u[j] == m[j + k - 1]);
            }
        }
        lemma_entry_found(u, 0);
        assert(u[0] == m[k - 1]);
        assert(u.remove(0) =~= m.skip(k));
    }
}

/// Removing the highest asks one by one leaves the rest.
proof fn lemma_cut_asks(m: Seq<(i64, i64)>, k: int)
    requires
        sorted(m),
        0 <= k <= m.len(),
    ensures
        changed(m, Seq::new(k as nat, |i: int| (m[m.len() - 1 - i].0, 0i64))) == m.take(
            m.len() - k,
        ),
    decreases k,
{
    let v = Seq::new(k as nat, |i: int| (m[m.len() - 1 - i].0, 0i64));
    if k == 0 {
        assert(m.take(m.len() as int) =~= m);
    } else {
        lemma_cut_asks(m, k - 1);
        assert(v.drop_last() =~= Seq::new((k - 1) as nat, |i: int| (m[m.len() - 1 - i].0, 0i64)));
        let u = m.take(m.len() - k + 1);
        assert(sorted(u)) by {
            assert forall|i: int, j: int| 0 <= i < j < u.len() implies key_lt(
                #[trigger] u[i].0,
                #[trigger] u[j].0,
            ) by {
                assert(u[i] == m[i] && u[j] == m[j]);
            }
        }
        lemma_entry_found(u, u.len() - 1);
        assert(u[u.len() - 1] == m[m.len() - k]);
        assert(u.remove(u.len() - 1) =~= m.take(m.len() - k));
    }
}

/// What goes out is the whole change: the levels of a diff, the removals of what was
/// trimmed away with them, turn the mirror before the message into the mirror after it.
pub proof fn law_diff_is_the_change(
    s: KrakenState,
    bids: Seq<(i64, i64)>,
    asks: Seq<(i64, i64)>,
)
    requires
        sorted(s.bids),
        sorted(s.asks),
    ensures
        ({
            let m = mirrored(s, false, bids, asks);
            &&& changed(s.bids, bids + cut_bids(changed(s.bids, bids), s.n)) == m.bids
            &&& changed(s.asks, asks + cut_asks(changed(s.asks, asks), s.n)) == m.asks
            &&& m.bids.len() <= s.n
            &&& m.asks.len() <= s.n
        }),
{
    let b = changed(s.bids, bids);
    let a = changed(s.asks, asks);
    lemma_changed_sorted(s.bids, bids);
    lemma_changed_sorted(s.asks, asks);
    lemma_changed_joined(s.bids, bids, cut_bids(b, s.n));
    lemma_changed_joined(s.asks, asks, cut_asks(a, s.n));
    if b.len() > s.n {
        lemma_cut_bids(b, b.len() - s.n);
    }
    if a.len() > s.n {
        lemma_cut_asks(a, a.len() - s.n);
    }
}

/// Why the REST service of Kraken gave nothing.
pub enum KrakenRestError {
    /// Network or HTTP.
    Http(String),
    /// A reply that was not expected.
    Body(String),
}

impl KrakenRestError {
    /// The message.
    pub open spec fn text(self) -> Seq<char> {
        match self {
            KrakenRestError::Http(e) => "http: "@ + e@,
            KrakenRestError::Body(e) => "respuesta: "@ + e@,
        }
    }

    /// The message.
    pub fn message(&self) -> (r: String)
        ensures
            r@ == self.text(),
    {
        match self {
            KrakenRestError::Http(e) => {
                let mut s = String::from_str("http: ");
                s.append(e.as_str());
                s
            },
            KrakenRestError::Body(e) => {
                let mut s = String::from_str("respuesta: ");
                s.append(e.as_str());
                s
            },
        }
    }
}

/// The URL of the precision of a pair such as `SOL/USD`.
pub fn pairs_url(wsname: &str) -> (r: String)
    ensures
        r@ == "https://api.kraken.com/0/public/AssetPairs?pair="@ + without(wsname@, '/'),
{
    let mut s = String::from_str("https://api.kraken.com/0/public/AssetPairs?pair=");
    let pair = strip_char(wsname, '/');
    s.append(pair.as_str());
    s
}

} // verus!

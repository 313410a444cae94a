//! What is read of each message, field by field and item by item.

use crate::binance;
use crate::bybit;
use crate::coinbase;
use crate::json;
use crate::json::{
    bool_in, bool_or_false_in, i64_in, list_in, list_or_empty_in, opt_bool_in, opt_str_in,
    opt_u64_in, raw_in, str_in, string_in, string_or_empty_in, u32_in, u64_in,
};
use crate::kraken;
use crate::okx;
use crate::record::record_of;
use vstd::prelude::*;

verus! {

/// The fields of a `binance` envelope, each under its own name.
pub proof fn law_binance_envelope_fields(text: Seq<char>)
    ensures
        binance::envelope_of(text) matches Ok(w) ==> {
            &&& record_of(text, seq!["stream"@, "data"@], 2) matches Ok(f)
            &&& str_in(f, "stream"@) matches Ok(x) && x == w.stream
            &&& raw_in(f, "data"@) matches Ok(x) && x == w.data
        },
{
}

/// The fields of a `binance` depth, each under its own name.
pub proof fn law_binance_depth_fields(text: Seq<char>)
    ensures
        binance::depth_of(text) matches Ok(w) ==> {
            &&& record_of(text, seq!["E"@, "T"@, "U"@, "u"@, "pu"@, "b"@, "a"@], 7) matches Ok(f)
            &&& u64_in(f, "E"@) matches Ok(x) && x == w.event_time
            &&& opt_u64_in(f, "T"@) matches Ok(x) && x == w.match_time
            &&& u64_in(f, "U"@) matches Ok(x) && x == w.first
            &&& u64_in(f, "u"@) matches Ok(x) && x == w.last
            &&& opt_u64_in(f, "pu"@) matches Ok(x) && x == w.prev
            &&& list_in(f, "b"@) matches Ok(items) && json::pairs_of(items) matches Ok(x)
                && x == w.bids
            &&& list_in(f, "a"@) matches Ok(items) && json::pairs_of(items) matches Ok(x)
                && x == w.asks
        },
{
}

/// The fields of a `binance` agg, each under its own name.
pub proof fn law_binance_agg_fields(text: Seq<char>)
    ensures
        binance::agg_of(text) matches Ok(w) ==> {
            &&& record_of(text, seq!["E"@, "a"@, "p"@, "q"@, "nq"@, "f"@, "l"@, "T"@, "m"@], 9) matches Ok(f)
            &&& u64_in(f, "E"@) matches Ok(x) && x == w.event_time
            &&& u64_in(f, "a"@) matches Ok(x) && x == w.agg_id
            &&& str_in(f, "p"@) matches Ok(x) && x == w.px
            &&& str_in(f, "q"@) matches Ok(x) && x == w.qty
            &&& opt_str_in(f, "nq"@) matches Ok(x) && x == w.qty_normal
            &&& u64_in(f, "f"@) matches Ok(x) && x == w.first
            &&& u64_in(f, "l"@) matches Ok(x) && x == w.last
            &&& u64_in(f, "T"@) matches Ok(x) && x == w.trade_time
            &&& bool_in(f, "m"@) matches Ok(x) && x == w.buyer_is_maker
        },
{
}

/// The fields of a `binance` snapshot, each under its own name.
pub proof fn law_binance_snapshot_fields(text: Seq<char>)
    ensures
        binance::snapshot_of(text) matches Ok(w) ==> {
            &&& record_of(text, seq!["lastUpdateId"@, "E"@, "bids"@, "asks"@], 4) matches Ok(f)
            &&& u64_in(f, "lastUpdateId"@) matches Ok(x) && x == w.last_update_id
            &&& opt_u64_in(f, "E"@) matches Ok(x) && x == w.event_time
            &&& list_in(f, "bids"@) matches Ok(items) && json::pairs_of(items) matches Ok(x)
                && x == w.bids
            &&& list_in(f, "asks"@) matches Ok(items) && json::pairs_of(items) matches Ok(x)
                && x == w.asks
        },
{
}

/// The fields of a `binance` sym, each under its own name.
pub proof fn law_binance_sym_fields(text: Seq<char>)
    ensures
        binance::sym_of(text) matches Ok(w) ==> {
            &&& record_of(text, seq!["symbol"@, "filters"@], 2) matches Ok(f)
            &&& string_in(f, "symbol"@) matches Ok(x) && x == w.symbol
            &&& list_in(f, "filters"@) matches Ok(x) && x == w.filters
        },
{
}

/// The fields of a `binance` info, each under its own name.
pub proof fn law_binance_info_fields(text: Seq<char>)
    ensures
        binance::info_of(text) matches Ok(w) ==> {
            &&& record_of(text, seq!["symbols"@], 1) matches Ok(f)
            &&& list_in(f, "symbols"@) matches Ok(items) && binance::syms_of(items) matches Ok(x)
                && x == w.symbols
        },
{
}

/// The fields of a `okx` arg, each under its own name.
pub proof fn law_okx_arg_fields(text: Seq<char>)
    ensures
        okx::arg_of(text) matches Ok(w) ==> {
            &&& record_of(text, seq!["channel"@], 1) matches Ok(f)
            &&& str_in(f, "channel"@) matches Ok(x) && x == w.channel
        },
{
}

/// The fields of a `okx` envelope, each under its own name.
pub proof fn law_okx_envelope_fields(text: Seq<char>)
    ensures
        okx::envelope_of(text) matches Ok(w) ==> {
            &&& record_of(text, seq!["event"@, "msg"@, "arg"@, "action"@, "data"@], 0) matches Ok(f)
            &&& opt_str_in(f, "event"@) matches Ok(x) && x == w.event
            &&& opt_str_in(f, "msg"@) matches Ok(x) && x == w.msg
            &&& opt_str_in(f, "action"@) matches Ok(x) && x == w.action
        },
{
}

/// The fields of a `okx` book, each under its own name.
pub proof fn law_okx_book_fields(text: Seq<char>)
    ensures
        okx::book_of(text) matches Ok(w) ==> {
            &&& record_of(text, seq!["asks"@, "bids"@, "ts"@, "seqId"@, "prevSeqId"@], 5) matches Ok(f)
            &&& str_in(f, "ts"@) matches Ok(x) && x == w.ts
            &&& i64_in(f, "seqId"@) matches Ok(x) && x == w.seq_id
            &&& i64_in(f, "prevSeqId"@) matches Ok(x) && x == w.prev_seq_id
            &&& list_in(f, "asks"@) matches Ok(items) && json::quads_of(items) matches Ok(x)
                && x == w.asks
            &&& list_in(f, "bids"@) matches Ok(items) && json::quads_of(items) matches Ok(x)
                && x == w.bids
        },
{
}

/// The fields of a `okx` trade, each under its own name.
pub proof fn law_okx_trade_fields(text: Seq<char>)
    ensures
        okx::trade_of(text) matches Ok(w) ==> {
            &&& record_of(text, seq!["tradeId"@, "px"@, "sz"@, "side"@, "ts"@, "count"@], 5) matches Ok(f)
            &&& str_in(f, "tradeId"@) matches Ok(x) && x == w.trade_id
            &&& str_in(f, "px"@) matches Ok(x) && x == w.px
            &&& str_in(f, "sz"@) matches Ok(x) && x == w.sz
            &&& str_in(f, "side"@) matches Ok(x) && x == w.side
            &&& str_in(f, "ts"@) matches Ok(x) && x == w.ts
            &&& opt_str_in(f, "count"@) matches Ok(x) && x == w.count
        },
{
}

/// The fields of a `okx` inst, each under its own name.
pub proof fn law_okx_inst_fields(text: Seq<char>)
    ensures
        okx::inst_of(text) matches Ok(w) ==> {
            &&& record_of(text, seq!["tickSz"@, "lotSz"@, "ctVal"@], 2) matches Ok(f)
            &&& string_in(f, "tickSz"@) matches Ok(x) && x == w.tick_sz
            &&& string_in(f, "lotSz"@) matches Ok(x) && x == w.lot_sz
            &&& string_or_empty_in(f, "ctVal"@) matches Ok(x) && x == w.ct_val
        },
{
}

/// The fields of a `okx` reply, each under its own name.
pub proof fn law_okx_reply_fields(text: Seq<char>)
    ensures
        okx::reply_of(text) matches Ok(w) ==> {
            &&& record_of(text, seq!["code"@, "msg"@, "data"@], 3) matches Ok(f)
            &&& string_in(f, "code"@) matches Ok(x) && x == w.code
            &&& string_or_empty_in(f, "msg"@) matches Ok(x) && x == w.msg
            &&& list_in(f, "data"@) matches Ok(items) && okx::insts_of(items) matches Ok(x)
                && x == w.data
        },
{
}

/// The fields of a `bybit` envelope, each under its own name.
pub proof fn law_bybit_envelope_fields(text: Seq<char>)
    ensures
        bybit::envelope_of(text) matches Ok(w) ==> {
            &&& record_of(text, seq!["topic"@, "type"@, "ts"@, "cts"@, "data"@, "op"@, "success"@, "ret_msg"@], 0) matches Ok(f)
            &&& opt_str_in(f, "topic"@) matches Ok(x) && x == w.topic
            &&& opt_str_in(f, "type"@) matches Ok(x) && x == w.kind
            &&& opt_u64_in(f, "ts"@) matches Ok(x) && x == w.ts
            &&& opt_u64_in(f, "cts"@) matches Ok(x) && x == w.cts
            &&& opt_str_in(f, "op"@) matches Ok(x) && x == w.op
            &&& opt_bool_in(f, "success"@) matches Ok(x) && x == w.success
            &&& opt_str_in(f, "ret_msg"@) matches Ok(x) && x == w.ret_msg
        },
{
}

/// The fields of a `bybit` book, each under its own name.
pub proof fn law_bybit_book_fields(text: Seq<char>)
    ensures
        bybit::book_of(text) matches Ok(w) ==> {
            &&& record_of(text, seq!["b"@, "a"@, "u"@], 3) matches Ok(f)
            &&& u64_in(f, "u"@) matches Ok(x) && x == w.u
            &&& list_in(f, "b"@) matches Ok(items) && json::pairs_of(items) matches Ok(x)
                && x == w.b
            &&& list_in(f, "a"@) matches Ok(items) && json::pairs_of(items) matches Ok(x)
                && x == w.a
        },
{
}

/// The fields of a `bybit` trade, each under its own name.
pub proof fn law_bybit_trade_fields(text: Seq<char>)
    ensures
        bybit::trade_of(text) matches Ok(w) ==> {
            &&& record_of(text, seq!["T"@, "S"@, "v"@, "p"@, "i"@, "RPI"@], 5) matches Ok(f)
            &&& u64_in(f, "T"@) matches Ok(x) && x == w.t
            &&& str_in(f, "S"@) matches Ok(x) && x == w.side
            &&& str_in(f, "v"@) matches Ok(x) && x == w.v
            &&& str_in(f, "p"@) matches Ok(x) && x == w.p
            &&& str_in(f, "i"@) matches Ok(x) && x == w.i
            &&& bool_or_false_in(f, "RPI"@) matches Ok(x) && x == w.rpi
        },
{
}

/// The fields of a `coinbase` update, each under its own name.
pub proof fn law_coinbase_update_fields(text: Seq<char>)
    ensures
        coinbase::update_of(text) matches Ok(w) ==> {
            &&& record_of(text, seq!["side"@, "event_time"@, "price_level"@, "new_quantity"@], 4) matches Ok(f)
            &&& str_in(f, "side"@) matches Ok(x) && x == w.side
            &&& str_in(f, "event_time"@) matches Ok(x) && x == w.event_time
            &&& str_in(f, "price_level"@) matches Ok(x) && x == w.price_level
            &&& str_in(f, "new_quantity"@) matches Ok(x) && x == w.new_quantity
        },
{
}

/// The fields of a `coinbase` trade, each under its own name.
pub proof fn law_coinbase_trade_fields(text: Seq<char>)
    ensures
        coinbase::trade_of(text) matches Ok(w) ==> {
            &&& record_of(text, seq!["trade_id"@, "price"@, "size"@, "time"@, "side"@], 5) matches Ok(f)
            &&& str_in(f, "trade_id"@) matches Ok(x) && x == w.trade_id
            &&& str_in(f, "price"@) matches Ok(x) && x == w.price
            &&& str_in(f, "size"@) matches Ok(x) && x == w.size
            &&& str_in(f, "time"@) matches Ok(x) && x == w.time
            &&& str_in(f, "side"@) matches Ok(x) && x == w.side
        },
{
}

/// The fields of a `coinbase` item, each under its own name.
pub proof fn law_coinbase_item_fields(text: Seq<char>)
    ensures
        coinbase::item_of(text) matches Ok(w) ==> {
            &&& record_of(text, seq!["type"@, "updates"@, "trades"@], 0) matches Ok(f)
            &&& opt_str_in(f, "type"@) matches Ok(x) && x == w.kind
            &&& list_or_empty_in(f, "updates"@) matches Ok(items) && coinbase::updates_of(items) matches Ok(x)
                && x == w.updates
            &&& list_or_empty_in(f, "trades"@) matches Ok(items) && coinbase::trades_of(items) matches Ok(x)
                && x == w.trades
        },
{
}

/// The fields of a `coinbase` envelope, each under its own name.
pub proof fn law_coinbase_envelope_fields(text: Seq<char>)
    ensures
        coinbase::envelope_of(text) matches Ok(w) ==> {
            &&& record_of(text, seq!["channel"@, "sequence_num"@, "events"@, "type"@, "message"@], 0) matches Ok(f)
            &&& opt_str_in(f, "channel"@) matches Ok(x) && x == w.channel
            &&& opt_u64_in(f, "sequence_num"@) matches Ok(x) && x == w.sequence_num
            &&& opt_str_in(f, "type"@) matches Ok(x) && x == w.kind
            &&& opt_str_in(f, "message"@) matches Ok(x) && x == w.message
            &&& list_or_empty_in(f, "events"@) matches Ok(items) && coinbase::items_of(items) matches Ok(x)
                && x == w.events
        },
{
}

/// The fields of a `kraken` quote, each under its own name.
pub proof fn law_kraken_quote_fields(text: Seq<char>)
    ensures
        kraken::quote_of(text) matches Ok(w) ==> {
            &&& record_of(text, seq!["price"@, "qty"@], 2) matches Ok(f)
            &&& raw_in(f, "price"@) matches Ok(x) && x == w.price
            &&& raw_in(f, "qty"@) matches Ok(x) && x == w.qty
        },
{
}

/// The fields of a `kraken` book, each under its own name.
pub proof fn law_kraken_book_fields(text: Seq<char>)
    ensures
        kraken::book_of(text) matches Ok(w) ==> {
            &&& record_of(text, seq!["bids"@, "asks"@, "checksum"@, "timestamp"@], 3) matches Ok(f)
            &&& u32_in(f, "checksum"@) matches Ok(x) && x == w.checksum
            &&& opt_str_in(f, "timestamp"@) matches Ok(x) && x == w.timestamp
            &&& list_or_empty_in(f, "bids"@) matches Ok(items) && kraken::quotes_of(items) matches Ok(x)
                && x == w.bids
            &&& list_or_empty_in(f, "asks"@) matches Ok(items) && kraken::quotes_of(items) matches Ok(x)
                && x == w.asks
        },
{
}

/// The fields of a `kraken` trade, each under its own name.
pub proof fn law_kraken_trade_fields(text: Seq<char>)
    ensures
        kraken::trade_of(text) matches Ok(w) ==> {
            &&& record_of(text, seq!["side"@, "price"@, "qty"@, "trade_id"@, "timestamp"@], 5) matches Ok(f)
            &&& str_in(f, "side"@) matches Ok(x) && x == w.side
            &&& raw_in(f, "price"@) matches Ok(x) && x == w.price
            &&& raw_in(f, "qty"@) matches Ok(x) && x == w.qty
            &&& u64_in(f, "trade_id"@) matches Ok(x) && x == w.trade_id
            &&& str_in(f, "timestamp"@) matches Ok(x) && x == w.timestamp
        },
{
}

/// The fields of a `kraken` envelope, each under its own name.
pub proof fn law_kraken_envelope_fields(text: Seq<char>)
    ensures
        kraken::envelope_of(text) matches Ok(w) ==> {
            &&& record_of(text, seq!["channel"@, "type"@, "data"@, "method"@, "success"@, "error"@], 0) matches Ok(f)
            &&& opt_str_in(f, "channel"@) matches Ok(x) && x == w.channel
            &&& opt_str_in(f, "type"@) matches Ok(x) && x == w.kind
            &&& opt_str_in(f, "method"@) matches Ok(x) && x == w.method
            &&& opt_bool_in(f, "success"@) matches Ok(x) && x == w.success
            &&& opt_str_in(f, "error"@) matches Ok(x) && x == w.error
        },
{
}

/// The fields of a `kraken` pair, each under its own name.
pub proof fn law_kraken_pair_fields(text: Seq<char>)
    ensures
        kraken::pair_of(text) matches Ok(w) ==> {
            &&& record_of(text, seq!["wsname"@, "pair_decimals"@, "lot_decimals"@], 3) matches Ok(f)
            &&& string_in(f, "wsname"@) matches Ok(x) && x == w.wsname
            &&& u32_in(f, "pair_decimals"@) matches Ok(x) && x == w.pair_decimals
            &&& u32_in(f, "lot_decimals"@) matches Ok(x) && x == w.lot_decimals
        },
{
}

/// The fields of a `kraken` reply, each under its own name.
pub proof fn law_kraken_reply_fields(text: Seq<char>)
    ensures
        kraken::reply_of(text) matches Ok(w) ==> {
            &&& record_of(text, seq!["error"@, "result"@], 2) matches Ok(f)
            &&& list_in(f, "error"@) matches Ok(items) && json::strings_of(items) matches Ok(x)
                && x == w.error
        },
{
}

/// The pairs of a list of `json` are those of its items, in order, and are read where each
/// item is.
pub proof fn law_json_pairs_in_order(items: Seq<Seq<char>>)
    ensures
        json::pairs_of(items) matches Ok(v) ==> {
            &&& v.len() == items.len()
            &&& forall|i: int|
                0 <= i < v.len() ==> (json::pair_of(items[i]) matches Ok(x) && x == #[trigger] v[i])
        },
        json::pairs_of(items) is Ok <==> forall|i: int|
            0 <= i < items.len() ==> json::pair_of(#[trigger] items[i]) is Ok,
    decreases items.len(),
{
    if items.len() > 0 {
        let front = items.drop_last();
        law_json_pairs_in_order(front);
        assert(forall|i: int| 0 <= i < front.len() ==> front[i] == items[i]);
        assert(items[items.len() - 1] == items.last());
    }
}

/// The quads of a list of `json` are those of its items, in order, and are read where each
/// item is.
pub proof fn law_json_quads_in_order(items: Seq<Seq<char>>)
    ensures
        json::quads_of(items) matches Ok(v) ==> {
            &&& v.len() == items.len()
            &&& forall|i: int|
                0 <= i < v.len() ==> (json::quad_of(items[i]) matches Ok(x) && x == #[trigger] v[i])
        },
        json::quads_of(items) is Ok <==> forall|i: int|
            0 <= i < items.len() ==> json::quad_of(#[trigger] items[i]) is Ok,
    decreases items.len(),
{
    if items.len() > 0 {
        let front = items.drop_last();
        law_json_quads_in_order(front);
        assert(forall|i: int| 0 <= i < front.len() ==> front[i] == items[i]);
        assert(items[items.len() - 1] == items.last());
    }
}

/// The strings of a list of `json` are those of its items, in order, and are read where each
/// item is.
pub proof fn law_json_strings_in_order(items: Seq<Seq<char>>)
    ensures
        json::strings_of(items) matches Ok(v) ==> {
            &&& v.len() == items.len()
            &&& forall|i: int|
                0 <= i < v.len() ==> (json::json_string(items[i]) matches Ok(x)
                && x == #[trigger] v[i])
        },
        json::strings_of(items) is Ok <==> forall|i: int|
            0 <= i < items.len() ==> json::json_string(#[trigger] items[i]) is Ok,
    decreases items.len(),
{
    if items.len() > 0 {
        let front = items.drop_last();
        law_json_strings_in_order(front);
        assert(forall|i: int| 0 <= i < front.len() ==> front[i] == items[i]);
        assert(items[items.len() - 1] == items.last());
    }
}

/// The syms of a list of `binance` are those of its items, in order, and are read where each
/// item is.
pub proof fn law_binance_syms_in_order(items: Seq<Seq<char>>)
    ensures
        binance::syms_of(items) matches Ok(v) ==> {
            &&& v.len() == items.len()
            &&& forall|i: int|
                0 <= i < v.len() ==> (binance::sym_of(items[i]) matches Ok(x)
                && x == #[trigger] v[i])
        },
        binance::syms_of(items) is Ok <==> forall|i: int|
            0 <= i < items.len() ==> binance::sym_of(#[trigger] items[i]) is Ok,
    decreases items.len(),
{
    if items.len() > 0 {
        let front = items.drop_last();
        law_binance_syms_in_order(front);
        assert(forall|i: int| 0 <= i < front.len() ==> front[i] == items[i]);
        assert(items[items.len() - 1] == items.last());
    }
}

/// The books of a list of `okx` are those of its items, in order, and are read where each
/// item is.
pub proof fn law_okx_books_in_order(items: Seq<Seq<char>>)
    ensures
        okx::books_of(items) matches Ok(v) ==> {
            &&& v.len() == items.len()
            &&& forall|i: int|
                0 <= i < v.len() ==> (okx::book_of(items[i]) matches Ok(x) && x == #[trigger] v[i])
        },
        okx::books_of(items) is Ok <==> forall|i: int|
            0 <= i < items.len() ==> okx::book_of(#[trigger] items[i]) is Ok,
    decreases items.len(),
{
    if items.len() > 0 {
        let front = items.drop_last();
        law_okx_books_in_order(front);
        assert(forall|i: int| 0 <= i < front.len() ==> front[i] == items[i]);
        assert(items[items.len() - 1] == items.last());
    }
}

/// The trades of a list of `okx` are those of its items, in order, and are read where each
/// item is.
pub proof fn law_okx_trades_in_order(items: Seq<Seq<char>>)
    ensures
        okx::trades_of(items) matches Ok(v) ==> {
            &&& v.len() == items.len()
            &&& forall|i: int|
                0 <= i < v.len() ==> (okx::trade_of(items[i]) matches Ok(x) && x == #[trigger] v[i])
        },
        okx::trades_of(items) is Ok <==> forall|i: int|
            0 <= i < items.len() ==> okx::trade_of(#[trigger] items[i]) is Ok,
    decreases items.len(),
{
    if items.len() > 0 {
        let front = items.drop_last();
        law_okx_trades_in_order(front);
        assert(forall|i: int| 0 <= i < front.len() ==> front[i] == items[i]);
        assert(items[items.len() - 1] == items.last());
    }
}

/// The insts of a list of `okx` are those of its items, in order, and are read where each
/// item is.
pub proof fn law_okx_insts_in_order(items: Seq<Seq<char>>)
    ensures
        okx::insts_of(items) matches Ok(v) ==> {
            &&& v.len() == items.len()
            &&& forall|i: int|
                0 <= i < v.len() ==> (okx::inst_of(items[i]) matches Ok(x) && x == #[trigger] v[i])
        },
        okx::insts_of(items) is Ok <==> forall|i: int|
            0 <= i < items.len() ==> okx::inst_of(#[trigger] items[i]) is Ok,
    decreases items.len(),
{
    if items.len() > 0 {
        let front = items.drop_last();
        law_okx_insts_in_order(front);
        assert(forall|i: int| 0 <= i < front.len() ==> front[i] == items[i]);
        assert(items[items.len() - 1] == items.last());
    }
}

/// The trades of a list of `bybit` are those of its items, in order, and are read where each
/// item is.
pub proof fn law_bybit_trades_in_order(items: Seq<Seq<char>>)
    ensures
        bybit::trades_of(items) matches Ok(v) ==> {
            &&& v.len() == items.len()
            &&& forall|i: int|
                0 <= i < v.len() ==> (bybit::trade_of(items[i]) matches Ok(x)
                && x == #[trigger] v[i])
        },
        bybit::trades_of(items) is Ok <==> forall|i: int|
            0 <= i < items.len() ==> bybit::trade_of(#[trigger] items[i]) is Ok,
    decreases items.len(),
{
    if items.len() > 0 {
        let front = items.drop_last();
        law_bybit_trades_in_order(front);
        assert(forall|i: int| 0 <= i < front.len() ==> front[i] == items[i]);
        assert(items[items.len() - 1] == items.last());
    }
}

/// The updates of a list of `coinbase` are those of its items, in order, and are read where each
/// item is.
pub proof fn law_coinbase_updates_in_order(items: Seq<Seq<char>>)
    ensures
        coinbase::updates_of(items) matches Ok(v) ==> {
            &&& v.len() == items.len()
            &&& forall|i: int|
                0 <= i < v.len() ==> (coinbase::update_of(items[i]) matches Ok(x)
                && x == #[trigger] v[i])
        },
        coinbase::updates_of(items) is Ok <==> forall|i: int|
            0 <= i < items.len() ==> coinbase::update_of(#[trigger] items[i]) is Ok,
    decreases items.len(),
{
    if items.len() > 0 {
        let front = items.drop_last();
        law_coinbase_updates_in_order(front);
        assert(forall|i: int| 0 <= i < front.len() ==> front[i] == items[i]);
        assert(items[items.len() - 1] == items.last());
    }
}

/// The trades of a list of `coinbase` are those of its items, in order, and are read where each
/// item is.
pub proof fn law_coinbase_trades_in_order(items: Seq<Seq<char>>)
    ensures
        coinbase::trades_of(items) matches Ok(v) ==> {
            &&& v.len() == items.len()
            &&& forall|i: int|
                0 <= i < v.len() ==> (coinbase::trade_of(items[i]) matches Ok(x)
                && x == #[trigger] v[i])
        },
        coinbase::trades_of(items) is Ok <==> forall|i: int|
            0 <= i < items.len() ==> coinbase::trade_of(#[trigger] items[i]) is Ok,
    decreases items.len(),
{
    if items.len() > 0 {
        let front = items.drop_last();
        law_coinbase_trades_in_order(front);
        assert(forall|i: int| 0 <= i < front.len() ==> front[i] == items[i]);
        assert(items[items.len() - 1] == items.last());
    }
}

/// The items of a list of `coinbase` are those of its items, in order, and are read where each
/// item is.
pub proof fn law_coinbase_items_in_order(items: Seq<Seq<char>>)
    ensures
        coinbase::items_of(items) matches Ok(v) ==> {
            &&& v.len() == items.len()
            &&& forall|i: int|
                0 <= i < v.len() ==> (coinbase::item_of(items[i]) matches Ok(x)
                && x == #[trigger] v[i])
        },
        coinbase::items_of(items) is Ok <==> forall|i: int|
            0 <= i < items.len() ==> coinbase::item_of(#[trigger] items[i]) is Ok,
    decreases items.len(),
{
    if items.len() > 0 {
        let front = items.drop_last();
        law_coinbase_items_in_order(front);
        assert(forall|i: int| 0 <= i < front.len() ==> front[i] == items[i]);
        assert(items[items.len() - 1] == items.last());
    }
}

/// The quotes of a list of `kraken` are those of its items, in order, and are read where each
/// item is.
pub proof fn law_kraken_quotes_in_order(items: Seq<Seq<char>>)
    ensures
        kraken::quotes_of(items) matches Ok(v) ==> {
            &&& v.len() == items.len()
            &&& forall|i: int|
                0 <= i < v.len() ==> (kraken::quote_of(items[i]) matches Ok(x)
                && x == #[trigger] v[i])
        },
        kraken::quotes_of(items) is Ok <==> forall|i: int|
            0 <= i < items.len() ==> kraken::quote_of(#[trigger] items[i]) is Ok,
    decreases items.len(),
{
    if items.len() > 0 {
        let front = items.drop_last();
        law_kraken_quotes_in_order(front);
        assert(forall|i: int| 0 <= i < front.len() ==> front[i] == items[i]);
        assert(items[items.len() - 1] == items.last());
    }
}

/// The books of a list of `kraken` are those of its items, in order, and are read where each
/// item is.
pub proof fn law_kraken_books_in_order(items: Seq<Seq<char>>)
    ensures
        kraken::books_of(items) matches Ok(v) ==> {
            &&& v.len() == items.len()
            &&& forall|i: int|
                0 <= i < v.len() ==> (kraken::book_of(items[i]) matches Ok(x)
                && x == #[trigger] v[i])
        },
        kraken::books_of(items) is Ok <==> forall|i: int|
            0 <= i < items.len() ==> kraken::book_of(#[trigger] items[i]) is Ok,
    decreases items.len(),
{
    if items.len() > 0 {
        let front = items.drop_last();
        law_kraken_books_in_order(front);
        assert(forall|i: int| 0 <= i < front.len() ==> front[i] == items[i]);
        assert(items[items.len() - 1] == items.last());
    }
}

/// The trades of a list of `kraken` are those of its items, in order, and are read where each
/// item is.
pub proof fn law_kraken_trades_in_order(items: Seq<Seq<char>>)
    ensures
        kraken::trades_of(items) matches Ok(v) ==> {
            &&& v.len() == items.len()
            &&& forall|i: int|
                0 <= i < v.len() ==> (kraken::trade_of(items[i]) matches Ok(x)
                && x == #[trigger] v[i])
        },
        kraken::trades_of(items) is Ok <==> forall|i: int|
            0 <= i < items.len() ==> kraken::trade_of(#[trigger] items[i]) is Ok,
    decreases items.len(),
{
    if items.len() > 0 {
        let front = items.drop_last();
        law_kraken_trades_in_order(front);
        assert(forall|i: int| 0 <= i < front.len() ==> front[i] == items[i]);
        assert(items[items.len() - 1] == items.last());
    }
}

/// The pairs of a list of `kraken` are those of its items, in order, and are read where each
/// item is.
pub proof fn law_kraken_pairs_in_order(items: Seq<Seq<char>>)
    ensures
        kraken::pairs_of(items) matches Ok(v) ==> {
            &&& v.len() == items.len()
            &&& forall|i: int|
                0 <= i < v.len() ==> (kraken::pair_of(items[i]) matches Ok(x)
                && x == #[trigger] v[i])
        },
        kraken::pairs_of(items) is Ok <==> forall|i: int|
            0 <= i < items.len() ==> kraken::pair_of(#[trigger] items[i]) is Ok,
    decreases items.len(),
{
    if items.len() > 0 {
        let front = items.drop_last();
        law_kraken_pairs_in_order(front);
        assert(forall|i: int| 0 <= i < front.len() ==> front[i] == items[i]);
        assert(items[items.len() - 1] == items.last());
    }
}

} // verus!

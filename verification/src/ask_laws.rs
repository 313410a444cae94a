//! What each line asks of its venue, word for word.

use crate::bybit;
use crate::coinbase;
use crate::json::json_quoted;
use crate::kraken;
use crate::net::Protocol;
use crate::okx;
use crate::text::int_text;
use vstd::prelude::*;

verus! {

/// A line of OKX asks for the book and the trades of its instrument.
#[verifier::rlimit(60)]
pub proof fn law_okx_asks_for_its_channels(s: okx::OkxState)
    ensures
        ({
            let m = okx::OkxProtocol::connect_next(s).1;
            &&& m.len() == 1
            &&& m[0] == "{\"args\":[{\"channel\":\"books\",\"instId\":"@
                + json_quoted(s.inst_id) + "},{\"channel\":\"trades\",\"instId\":"@
                + json_quoted(s.inst_id) + "}],\"op\":\"subscribe\"}"@
        }),
{
    reveal_strlit("{\"channel\":\"");
    reveal_strlit("\",\"instId\":");
    reveal_strlit("}");
    reveal_strlit("{\"args\":[");
    reveal_strlit("],\"op\":\"");
    reveal_strlit("\"}");
    reveal_strlit(",");
    reveal_strlit("books");
    reveal_strlit("trades");
    reveal_strlit("subscribe");
    reveal_strlit("unsubscribe");
    reveal_strlit("{\"args\":[{\"channel\":\"books\",\"instId\":");
    reveal_strlit("},{\"channel\":\"trades\",\"instId\":");
    reveal_strlit("}],\"op\":\"subscribe\"}");
}

/// A line of OKX gets a snapshot by leaving its book and asking for it again.
#[verifier::rlimit(60)]
pub proof fn law_okx_asks_for_the_book_again(s: okx::OkxState)
    ensures
        okx::OkxProtocol::resubscribe_next(s).1 is Some,
        ({
            let m = okx::OkxProtocol::resubscribe_next(s).1->0;
            &&& m.len() == 2
            &&& m[0] == "{\"args\":[{\"channel\":\"books\",\"instId\":"@
                + json_quoted(s.inst_id) + "}],\"op\":\"unsubscribe\"}"@
            &&& m[1] == "{\"args\":[{\"channel\":\"books\",\"instId\":"@
                + json_quoted(s.inst_id) + "}],\"op\":\"subscribe\"}"@
        }),
{
    reveal_strlit("{\"channel\":\"");
    reveal_strlit("\",\"instId\":");
    reveal_strlit("}");
    reveal_strlit("{\"args\":[");
    reveal_strlit("],\"op\":\"");
    reveal_strlit("\"}");
    reveal_strlit(",");
    reveal_strlit("books");
    reveal_strlit("trades");
    reveal_strlit("subscribe");
    reveal_strlit("unsubscribe");
    reveal_strlit("{\"args\":[{\"channel\":\"books\",\"instId\":");
    reveal_strlit("}],\"op\":\"unsubscribe\"}");
    reveal_strlit("}],\"op\":\"subscribe\"}");
}

/// A line of Bybit asks for the book and the trades of its symbol.
#[verifier::rlimit(60)]
pub proof fn law_bybit_asks_for_its_topics(s: bybit::BybitState)
    ensures
        ({
            let m = bybit::BybitProtocol::connect_next(s).1;
            &&& m.len() == 1
            &&& m[0] == "{\"args\":["@ + json_quoted("orderbook.1000."@ + s.symbol) + ","@
                + json_quoted("publicTrade."@ + s.symbol) + "],\"op\":\"subscribe\"}"@
        }),
{
    reveal_strlit("{\"args\":[");
    reveal_strlit("],\"op\":\"");
    reveal_strlit("\"}");
    reveal_strlit(",");
    reveal_strlit("subscribe");
    reveal_strlit("unsubscribe");
    reveal_strlit("],\"op\":\"subscribe\"}");
}

/// A line of Bybit gets a snapshot by leaving its book and asking for it again.
#[verifier::rlimit(60)]
pub proof fn law_bybit_asks_for_the_book_again(s: bybit::BybitState)
    ensures
        bybit::BybitProtocol::resubscribe_next(s).1 is Some,
        ({
            let m = bybit::BybitProtocol::resubscribe_next(s).1->0;
            &&& m.len() == 2
            &&& m[0] == "{\"args\":["@ + json_quoted("orderbook.1000."@ + s.symbol)
                + "],\"op\":\"unsubscribe\"}"@
            &&& m[1] == "{\"args\":["@ + json_quoted("orderbook.1000."@ + s.symbol)
                + "],\"op\":\"subscribe\"}"@
        }),
{
    reveal_strlit("{\"args\":[");
    reveal_strlit("],\"op\":\"");
    reveal_strlit("\"}");
    reveal_strlit(",");
    reveal_strlit("subscribe");
    reveal_strlit("unsubscribe");
    reveal_strlit("],\"op\":\"unsubscribe\"}");
    reveal_strlit("],\"op\":\"subscribe\"}");
}

/// A line of Coinbase asks for heartbeats and trades, and for the book where it feeds it; it
/// then awaits a snapshot.
#[verifier::rlimit(60)]
pub proof fn law_coinbase_asks_for_its_channels(s: coinbase::CoinbaseState)
    ensures
        coinbase::CoinbaseProtocol::connect_next(s).1.len() == (if s.depth {
            3nat
        } else {
            2nat
        }),
        coinbase::CoinbaseProtocol::connect_next(s).0.awaiting,
        ({
            let m = coinbase::CoinbaseProtocol::connect_next(s).1;
            &&& m[0] == "{\"channel\":\"heartbeats\",\"product_ids\":["@
                + json_quoted(s.product) + "],\"type\":\"subscribe\"}"@
            &&& m[1] == "{\"channel\":\"market_trades\",\"product_ids\":["@
                + json_quoted(s.product) + "],\"type\":\"subscribe\"}"@
            &&& s.depth ==> m[2] == "{\"channel\":\"level2\",\"product_ids\":["@
                + json_quoted(s.product) + "],\"type\":\"subscribe\"}"@
        }),
{
    reveal_strlit("{\"channel\":\"");
    reveal_strlit("\",\"product_ids\":[");
    reveal_strlit("],\"type\":\"");
    reveal_strlit("\"}");
    reveal_strlit("subscribe");
    reveal_strlit("unsubscribe");
    reveal_strlit("heartbeats");
    reveal_strlit("market_trades");
    reveal_strlit("level2");
    reveal_strlit("{\"channel\":\"heartbeats\",\"product_ids\":[");
    reveal_strlit("],\"type\":\"subscribe\"}");
    reveal_strlit("{\"channel\":\"market_trades\",\"product_ids\":[");
    reveal_strlit("{\"channel\":\"level2\",\"product_ids\":[");
}

/// A line of Coinbase that feeds the book gets a snapshot by leaving it and asking for it
/// again; another asks for nothing.
#[verifier::rlimit(60)]
pub proof fn law_coinbase_asks_for_the_book_again(s: coinbase::CoinbaseState)
    ensures
        coinbase::CoinbaseProtocol::resubscribe_next(s).1 is Some,
        !s.depth ==> coinbase::CoinbaseProtocol::resubscribe_next(s).1->0.len() == 0,
        s.depth ==> coinbase::CoinbaseProtocol::resubscribe_next(s).0.awaiting,
        s.depth ==> ({
            let m = coinbase::CoinbaseProtocol::resubscribe_next(s).1->0;
            &&& m.len() == 2
            &&& m[0] == "{\"channel\":\"level2\",\"product_ids\":["@ + json_quoted(s.product)
                + "],\"type\":\"unsubscribe\"}"@
            &&& m[1] == "{\"channel\":\"level2\",\"product_ids\":["@ + json_quoted(s.product)
                + "],\"type\":\"subscribe\"}"@
        }),
{
    reveal_strlit("{\"channel\":\"");
    reveal_strlit("\",\"product_ids\":[");
    reveal_strlit("],\"type\":\"");
    reveal_strlit("\"}");
    reveal_strlit("subscribe");
    reveal_strlit("unsubscribe");
    reveal_strlit("heartbeats");
    reveal_strlit("market_trades");
    reveal_strlit("level2");
    reveal_strlit("{\"channel\":\"level2\",\"product_ids\":[");
    reveal_strlit("],\"type\":\"unsubscribe\"}");
    reveal_strlit("],\"type\":\"subscribe\"}");
}

/// A line of Kraken asks for the trades of its pair, and for the book at its depth where it
/// feeds it; it then awaits a snapshot with nothing in its mirror.
#[verifier::rlimit(60)]
pub proof fn law_kraken_asks_for_its_channels(s: kraken::KrakenState)
    ensures
        ({
            let (t, m) = kraken::KrakenProtocol::connect_next(s);
            &&& t.awaiting && !t.resync && t.bids.len() == 0 && t.asks.len() == 0
            &&& m.len() == (if s.depth {
                2nat
            } else {
                1nat
            })
            &&& m[0] == "{\"method\":\"subscribe\",\"params\":{\"channel\":\"trade\",\"symbol\":["@
                + json_quoted(s.symbol) + "]}}"@
            &&& s.depth ==> m[1] == "{\"method\":\"subscribe\",\"params\":{\"channel\":\"book\",\"depth\":"@
                + int_text(s.n as int) + ",\"symbol\":["@ + json_quoted(s.symbol) + "]}}"@
        }),
{
    reveal_strlit("{\"method\":\"");
    reveal_strlit("\",\"params\":{\"channel\":\"");
    reveal_strlit("\",");
    reveal_strlit("\"depth\":");
    reveal_strlit(",");
    reveal_strlit("");
    reveal_strlit("\"symbol\":[");
    reveal_strlit("]}}");
    reveal_strlit("subscribe");
    reveal_strlit("unsubscribe");
    reveal_strlit("book");
    reveal_strlit("trade");
    reveal_strlit("{\"method\":\"subscribe\",\"params\":{\"channel\":\"trade\",\"symbol\":[");
    reveal_strlit("{\"method\":\"subscribe\",\"params\":{\"channel\":\"book\",\"depth\":");
    reveal_strlit(",\"symbol\":[");
}

/// A line of Kraken that feeds the book gets a snapshot by leaving it and asking for it again;
/// another asks for nothing.
#[verifier::rlimit(60)]
pub proof fn law_kraken_asks_for_the_book_again(s: kraken::KrakenState)
    ensures
        kraken::KrakenProtocol::resubscribe_next(s).1 is Some,
        !s.depth ==> kraken::KrakenProtocol::resubscribe_next(s).1->0.len() == 0,
        s.depth ==> kraken::KrakenProtocol::resubscribe_next(s).0.awaiting,
        s.depth ==> ({
            let m = kraken::KrakenProtocol::resubscribe_next(s).1->0;
            &&& m.len() == 2
            &&& m[0] == "{\"method\":\"unsubscribe\",\"params\":{\"channel\":\"book\",\"symbol\":["@
                + json_quoted(s.symbol) + "]}}"@
            &&& m[1] == "{\"method\":\"subscribe\",\"params\":{\"channel\":\"book\",\"depth\":"@
                + int_text(s.n as int) + ",\"symbol\":["@ + json_quoted(s.symbol) + "]}}"@
        }),
{
    reveal_strlit("{\"method\":\"");
    reveal_strlit("\",\"params\":{\"channel\":\"");
    reveal_strlit("\",");
    reveal_strlit("\"depth\":");
    reveal_strlit(",");
    reveal_strlit("");
    reveal_strlit("\"symbol\":[");
    reveal_strlit("]}}");
    reveal_strlit("subscribe");
    reveal_strlit("unsubscribe");
    reveal_strlit("book");
    reveal_strlit("trade");
    reveal_strlit("{\"method\":\"unsubscribe\",\"params\":{\"channel\":\"book\",\"symbol\":[");
    reveal_strlit("{\"method\":\"subscribe\",\"params\":{\"channel\":\"book\",\"depth\":");
    reveal_strlit(",\"symbol\":[");
}

/// Lines of OKX and Bybit beat every twenty seconds, each in its own words; the others do not.
/// A line asks for a snapshot of its own accord once after its mirror or its sequence failed.
#[verifier::rlimit(60)]
pub proof fn law_lines_beat_as_their_venue_asks(
    o: okx::OkxState,
    b: bybit::BybitState,
    c: coinbase::CoinbaseState,
    k: kraken::KrakenState,
)
    ensures
        okx::OkxProtocol::heartbeat(o) == Some((20_000u64, "ping"@)),
        bybit::BybitProtocol::heartbeat(b) == Some((20_000u64, "{\"op\":\"ping\"}"@)),
        coinbase::CoinbaseProtocol::heartbeat(c) is None,
        kraken::KrakenProtocol::heartbeat(k) is None,
        !okx::OkxProtocol::resync_next(o).1 && !bybit::BybitProtocol::resync_next(b).1,
        coinbase::CoinbaseProtocol::resync_next(c).1 == c.resync,
        !coinbase::CoinbaseProtocol::resync_next(coinbase::CoinbaseProtocol::resync_next(c).0).1,
        kraken::KrakenProtocol::resync_next(k).1 == k.resync,
        !kraken::KrakenProtocol::resync_next(kraken::KrakenProtocol::resync_next(k).0).1,
{
}

} // verus!

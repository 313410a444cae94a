//! What the exchanges say.

use libro_unificado::binance::{
    first_host, next_host, parse_frame, parse_instrument, parse_snapshot, weight_of,
    BinanceProtocol, Endpoints, HostStep, RestError, WireError,
};
use libro_unificado::bybit::{fnv1a64, BybitProtocol};
use libro_unificado::coinbase::{line_roles, CoinbaseProtocol};
use libro_unificado::crc::crc32;
use libro_unificado::event::{Aggressor, Level, MarketEvent, RxStamp};
use libro_unificado::fixed::{Px, Qty};
use libro_unificado::instrument::{MarketId, MarketKind, Venue};
use libro_unificado::kraken::{pairs_url, read_precision, KrakenProtocol, KrakenRestError};
use libro_unificado::net::Protocol;
use libro_unificado::okx::{
    after_try, contract_size, read_instrument, split_symbol, AfterTry, OkxEndpoints, OkxProtocol,
    OkxRestError,
};

fn run<P: Protocol>(p: &mut P, t: &str) -> Vec<MarketEvent> {
    let mut out = Vec::new();
    p.parse(t, RxStamp::default(), &mut out).unwrap();
    out
}

fn fails<P: Protocol>(p: &mut P, t: &str) -> String {
    let mut out = Vec::new();
    p.parse(t, RxStamp::default(), &mut out).unwrap_err()
}

// OKX

const OKX_SNAP: &str = r#"{"arg":{"channel":"books","instId":"SOL-USDT"},"action":"snapshot","data":[{"asks":[["120.67","90.475897","0","6"],["120.68","83.806786","0","7"]],"bids":[["120.66","28.448458","0","3"],["120.65","46.716665","0","3"]],"ts":"1790394877200","checksum":0,"seqId":32032594283,"prevSeqId":-1}]}"#;
const OKX_UPD: &str = r#"{"arg":{"channel":"books","instId":"SOL-USDT"},"action":"update","data":[{"asks":[["120.67","60.475897","0","5"]],"bids":[["120.66","0","0","0"]],"ts":"1790394877300","checksum":0,"seqId":32032594315,"prevSeqId":32032594283}]}"#;
const OKX_TRADE: &str = r#"{"arg":{"channel":"trades","instId":"SOL-USDT-SWAP"},"data":[{"instId":"SOL-USDT-SWAP","tradeId":"1632918528","px":"120.6","sz":"391.07","side":"sell","ts":"1790394876983","count":"26","source":"0","seqId":92286018766}]}"#;

#[test]
fn snapshot_rodante_y_update_encadenado() {
    let mut p = OkxProtocol::new("SOL-USDT", Qty::from_units(1));
    let out = run(&mut p, OKX_SNAP);
    let MarketEvent::Snapshot(s) = &out[0] else {
        panic!("se esperaba snapshot")
    };
    assert_eq!(s.last_update_id, 32032594283);
    assert!(s.rolling);
    assert_eq!(s.bids[0].px, Px::parse("120.66").unwrap());
    assert_eq!(s.asks[1].qty, Qty::parse("83.806786").unwrap());
    let out = run(&mut p, OKX_UPD);
    let MarketEvent::Depth(d) = &out[0] else {
        panic!("se esperaba update")
    };
    assert_eq!(d.prev_last_id, Some(32032594283));
    assert_eq!((d.first_id, d.last_id), (32032594284, 32032594315));
    assert_eq!(d.bids[0].qty, Qty::zero());
    assert_eq!(d.exch_ts_ms, 1790394877300);
}

#[test]
fn trade_agresor_fills_y_contratos() {
    let mut p = OkxProtocol::new("SOL-USDT-SWAP", Qty::parse("0.1").unwrap());
    let out = run(&mut p, OKX_TRADE);
    let MarketEvent::Trade(t) = &out[0] else {
        panic!("se esperaba trade")
    };
    assert_eq!(t.aggressor, Aggressor::Sell);
    assert_eq!(t.n_fills(), 26);
    assert_eq!(t.qty, Qty::parse("39.107").unwrap());
    assert_eq!(t.trade_ts_ms, 1790394876983);
}

#[test]
fn eventos_de_control() {
    let mut p = OkxProtocol::new("SOL-USDT", Qty::from_units(1));
    assert!(run(&mut p, "pong").is_empty());
    assert!(run(
        &mut p,
        r#"{"event":"subscribe","arg":{"channel":"books","instId":"SOL-USDT"},"connId":"x"}"#
    )
    .is_empty());
    let mut out = Vec::new();
    assert!(p
        .parse(
            r#"{"event":"error","msg":"bad","code":"60012"}"#,
            RxStamp::default(),
            &mut out
        )
        .is_err());
    assert_eq!(
        split_symbol("SOLUSDT"),
        Some(("SOL".to_string(), "USDT".to_string()))
    );
    let e = OkxEndpoints::new("SOLUSDT", MarketKind::Perp, 2).unwrap();
    assert_eq!(e.inst_id, "SOL-USDT-SWAP");
    assert_eq!(e.market.to_string(), "okx.perp.SOLUSDT");
}

#[test]
fn okx_rules_of_an_instrument() {
    let m = MarketId::new(Venue::Okx, MarketKind::Perp, "SOLUSDT");
    let (spec, contract) = read_instrument(
        r#"{"code":"0","msg":"","data":[{"tickSz":"0.01","lotSz":"0.5","ctVal":"0.1"}]}"#,
        &m,
    )
    .unwrap();
    assert_eq!(contract, Qty::parse("0.1").unwrap());
    assert_eq!(spec.tick, Px::parse("0.01").unwrap());
    assert_eq!(spec.step, Qty::parse("0.05").unwrap());
    let (_, one) = read_instrument(
        r#"{"code":"0","data":[{"tickSz":"0.01","lotSz":"0.5"}]}"#,
        &m,
    )
    .unwrap();
    assert_eq!(one, Qty::from_units(1));
    let e = read_instrument(r#"{"code":"51001","msg":"nope","data":[]}"#, &m).unwrap_err();
    assert_eq!(e, "code 51001: nope");
    let e = read_instrument(r#"{"code":"0","data":[]}"#, &m).unwrap_err();
    assert_eq!(e, "instrumento inexistente");
    assert_eq!(
        OkxRestError::Body("x".to_string()).message(),
        "respuesta: x"
    );
    assert_eq!(OkxRestError::Http("y".to_string()).message(), "http: y");
    assert_eq!(
        contract_size(None, MarketKind::Spot),
        Some(Qty::from_units(1))
    );
    assert_eq!(contract_size(None, MarketKind::Perp), None);
    assert_eq!(
        contract_size(Some(Qty::from_raw(7)), MarketKind::Perp),
        Some(Qty::from_raw(7))
    );
    let e = OkxEndpoints::new("SOLUSDT", MarketKind::Spot, 1).unwrap();
    assert!(e
        .rules_url()
        .ends_with("/api/v5/public/instruments?instType=SPOT&instId=SOL-USDT"));
}

#[test]
fn okx_subscribes_and_beats() {
    let mut p = OkxProtocol::new("SOL-USDT", Qty::from_units(1));
    let first = p.on_connect();
    assert!(first.iter().any(|m| m.contains("books")));
    let (ms, word) = p.keepalive().unwrap();
    assert!(ms > 0);
    assert_eq!(word, "ping");
    assert!(p.resubscribe().is_some());
    assert!(!p.take_resync());
    let bad = OKX_TRADE.replace("\"side\":\"sell\"", "\"side\":\"none\"");
    assert_eq!(fails(&mut p, &bad), "side desconocido: none");
}

// Binance

#[test]
fn depth_spot() {
    let f = r#"{"stream":"solusdt@depth@100ms","data":{"e":"depthUpdate","E":1758800000123,"s":"SOLUSDT","U":100,"u":105,"b":[["150.10","12.500"],["150.00","0.00000000"]],"a":[["150.20","3"]]}}"#;
    let Ok(MarketEvent::Depth(d)) = parse_frame(f, RxStamp::default()) else {
        panic!()
    };
    assert_eq!((d.first_id, d.last_id, d.prev_last_id), (100, 105, None));
    assert_eq!(d.exch_ts_ms, 1758800000123);
    assert_eq!(d.bids.len(), 2);
    assert_eq!(d.bids[0].px, Px::parse("150.1").unwrap());
    assert_eq!(d.bids[0].qty, Qty::parse("12.5").unwrap());
    assert!(d.bids[1].qty.is_zero());
    assert_eq!(d.asks[0].qty, Qty::from_units(3));
}

#[test]
fn depth_futuros_con_pu_y_t() {
    let f = r#"{"stream":"solusdt@depth@100ms","data":{"e":"depthUpdate","E":10,"T":9,"s":"SOLUSDT","U":157,"u":160,"pu":149,"b":[["0.0024","10"]],"a":[["0.0026","100"]]}}"#;
    let Ok(MarketEvent::Depth(d)) = parse_frame(f, RxStamp::default()) else {
        panic!()
    };
    assert_eq!(d.prev_last_id, Some(149));
    assert_eq!(d.match_ts_ms, Some(9));
}

#[test]
fn aggtrade_futuros_con_nq_rpi() {
    let f = r#"{"stream":"solusdt@aggTrade","data":{"e":"aggTrade","E":123456789,"s":"SOLUSDT","a":5933014,"p":"150.25","q":"10","nq":"7.5","f":100,"l":105,"T":123456785,"m":true}}"#;
    let Ok(MarketEvent::Trade(t)) = parse_frame(f, RxStamp::default()) else {
        panic!()
    };
    assert_eq!(t.aggressor, Aggressor::Sell);
    assert_eq!(t.n_fills(), 6);
    assert_eq!(t.qty_rpi(), Some(Qty::parse("2.5").unwrap()));
}

#[test]
fn aggtrade_spot_sin_nq() {
    let f = r#"{"stream":"solusdt@aggTrade","data":{"e":"aggTrade","E":1,"s":"SOLUSDT","a":1,"p":"1","q":"2","f":7,"l":7,"T":1,"m":false,"M":true}}"#;
    let Ok(MarketEvent::Trade(t)) = parse_frame(f, RxStamp::default()) else {
        panic!()
    };
    assert_eq!(t.aggressor, Aggressor::Buy);
    assert_eq!(t.qty_normal, None);
    assert_eq!(t.n_fills(), 1);
}

#[test]
fn otros_streams_se_ignoran_y_precision_invalida_falla() {
    let f = r#"{"stream":"solusdt@markPrice@1s","data":{"e":"markPriceUpdate","E":1}}"#;
    assert!(matches!(
        parse_frame(f, RxStamp::default()),
        Ok(MarketEvent::Ignored)
    ));
    let bad = r#"{"stream":"solusdt@depth@100ms","data":{"E":1,"U":1,"u":1,"b":[["1.000000001","1"]],"a":[]}}"#;
    assert!(parse_frame(bad, RxStamp::default()).is_err());
}

#[test]
fn snapshot_y_exchange_info() {
    let s = r#"{"lastUpdateId":1027024,"E":5,"T":4,"bids":[["4.00000000","431.00000000"]],"asks":[["4.00000200","12.00000000"]]}"#;
    let Ok(snap) = parse_snapshot(s, 1000, RxStamp::default()) else {
        panic!()
    };
    assert_eq!(snap.last_update_id, 1027024);
    assert_eq!(snap.asks[0].px, Px::parse("4.000002").unwrap());
    let info = r#"{"symbols":[{"symbol":"SOLUSDT","filters":[{"filterType":"PRICE_FILTER","tickSize":"0.01000000"},{"filterType":"LOT_SIZE","stepSize":"0.00100000"}]}]}"#;
    let m = MarketId::new(Venue::Binance, MarketKind::Spot, "SOLUSDT");
    let Ok(spec) = parse_instrument(info, &m) else {
        panic!()
    };
    assert_eq!(spec.tick, Px::parse("0.01").unwrap());
    assert_eq!(spec.step, Qty::parse("0.001").unwrap());
    assert!(spec.on_tick(Px::parse("150.25").unwrap()));
    assert!(!spec.on_tick(Px::parse("150.255").unwrap()));
}

#[test]
fn binance_faults_are_told_apart() {
    assert!(matches!(
        parse_frame("{", RxStamp::default()),
        Err(WireError::Json(_))
    ));
    let bad = r#"{"stream":"solusdt@depth@100ms","data":{"E":1,"U":1,"u":1,"b":[["x","1"]],"a":[]}}"#;
    let e = parse_frame(bad, RxStamp::default());
    let Err(e) = e else { panic!() };
    assert!(!e.message().is_empty());
    let m = MarketId::new(Venue::Binance, MarketKind::Spot, "SOLUSDT");
    assert!(matches!(
        parse_instrument(r#"{"symbols":[]}"#, &m),
        Err(WireError::Spec(_))
    ));
}

#[test]
fn binance_hosts_and_waits() {
    assert!(matches!(
        RestError::of_status(429, Some("7"), "h"),
        RestError::RateLimited {
            retry_after: Some(7)
        }
    ));
    assert_eq!(RestError::of_status(429, Some("7"), "h").wait_ms(5), 7_000);
    assert_eq!(RestError::of_status(429, None, "h").wait_ms(5), 60_000);
    assert_eq!(RestError::of_status(418, None, "h").wait_ms(5), 300_000);
    assert_eq!(RestError::of_status(500, None, "h").wait_ms(5), 5);
    assert!(RestError::of_status(451, None, "h").try_next_host());
    assert!(!RestError::of_status(429, None, "h").try_next_host());
    assert_eq!(weight_of("123"), Some(123));
    assert_eq!(weight_of("x"), None);
    assert!(matches!(first_host(2), HostStep::Ask(0)));
    assert!(matches!(first_host(0), HostStep::Done(Err(_))));
    let banned = || Err(RestError::of_status(451, None, "h"));
    assert!(matches!(next_host(2, 0, banned()), HostStep::Ask(1)));
    assert!(matches!(next_host(2, 1, banned()), HostStep::Done(Err(_))));
    let limited = Err(RestError::of_status(429, None, "h"));
    assert!(matches!(next_host(2, 0, limited), HostStep::Done(Err(_))));
    assert!(matches!(
        next_host(2, 0, Ok("body".to_string())),
        HostStep::Done(Ok(_))
    ));
    let ep = Endpoints::spot("SOLUSDT", 2);
    assert_eq!(ep.depth_lines.len(), 2);
    assert!(ep.depth_lines[0].contains("solusdt@depth"));
    let mut p = BinanceProtocol;
    assert!(p.on_connect().is_empty());
    assert!(p.keepalive().is_none());
}

// Bybit

const BYBIT_SNAP: &str = r#"{"topic":"orderbook.1000.SOLUSDT","type":"snapshot","ts":1790398529604,"data":{"s":"SOLUSDT","b":[["120.640","1374.5"],["120.630","913.5"]],"a":[["120.650","85.2"]],"u":27618816,"seq":282179960106},"cts":1790398529590}"#;
const BYBIT_DELTA: &str = r#"{"topic":"orderbook.1000.SOLUSDT","type":"delta","ts":1790398529803,"data":{"s":"SOLUSDT","b":[["120.610","2176.3"],["118.010","443.6"]],"a":[["120.650","62.1"]],"u":27618817,"seq":282179960268},"cts":1790398529803}"#;
const BYBIT_TRADES: &str = r#"{"topic":"publicTrade.SOLUSDT","type":"snapshot","ts":1790398534647,"data":[{"T":1790398534646,"s":"SOLUSDT","S":"Buy","v":"34.0","p":"120.650","L":"PlusTick","i":"a11350c6-eb47-5471-9f6f-9698f08fd040","BT":false,"RPI":false,"seq":282179964761},{"i":"2210000001608762408","T":1790398535414,"p":"120.69","v":"2.0193","S":"Sell","seq":162270086950,"s":"SOLUSDT","BT":false,"RPI":true}]}"#;

#[test]
fn snapshot_y_delta_encadenados_por_u() {
    let mut p = BybitProtocol::new("SOLUSDT");
    let out = run(&mut p, BYBIT_SNAP);
    let MarketEvent::Snapshot(s) = &out[0] else {
        panic!()
    };
    assert_eq!(s.last_update_id, 27618816);
    assert!(s.rolling);
    assert_eq!(s.exch_ts_ms, Some(1790398529590));
    let out = run(&mut p, BYBIT_DELTA);
    let MarketEvent::Depth(d) = &out[0] else {
        panic!()
    };
    assert_eq!(
        (d.first_id, d.last_id, d.prev_last_id),
        (27618817, 27618817, Some(27618816))
    );
    assert_eq!(d.match_ts_ms, Some(1790398529803));
    assert_eq!(d.bids[0].qty, Qty::parse("2176.3").unwrap());
}

#[test]
fn reinicio_del_servicio_abre_epoca_nueva() {
    let mut p = BybitProtocol::new("SOLUSDT");
    run(&mut p, BYBIT_SNAP);
    let restart = BYBIT_SNAP.replace("\"u\":27618816", "\"u\":1");
    let out = run(&mut p, &restart);
    let MarketEvent::Snapshot(s) = &out[0] else {
        panic!()
    };
    assert_eq!(s.last_update_id, (1 << 44) | 1, "los ids nunca retroceden");
}

#[test]
fn trades_agresor_rpi_e_ids() {
    let mut p = BybitProtocol::new("SOLUSDT");
    let out = run(&mut p, BYBIT_TRADES);
    let (MarketEvent::Trade(a), MarketEvent::Trade(b)) = (&out[0], &out[1]) else {
        panic!()
    };
    assert_eq!(a.aggressor, Aggressor::Buy);
    assert_eq!(a.agg_id, fnv1a64("a11350c6-eb47-5471-9f6f-9698f08fd040"));
    assert_eq!(a.qty_rpi(), Some(Qty::zero()));
    assert_eq!(b.agg_id, 2210000001608762408);
    assert_eq!(b.aggressor, Aggressor::Sell);
    assert_eq!(
        b.qty_rpi(),
        Some(Qty::parse("2.0193").unwrap()),
        "RPI se reporta aparte"
    );
}

#[test]
fn a_book_of_unknown_kind_is_refused() {
    let mut p = BybitProtocol::new("SOLUSDT");
    let kind = |k: &str| BYBIT_SNAP.replace("\"snapshot\"", k);
    assert_eq!(
        fails(&mut p, &kind("\"mitad\"")),
        "tipo de libro desconocido: Some(\"mitad\")"
    );
    assert_eq!(
        fails(&mut p, &kind("\"a\u{200b}b\"")),
        "tipo de libro desconocido: Some(\"a\\u{200b}b\")"
    );
    assert_eq!(fails(&mut p, &kind("null")), "tipo de libro desconocido: None");
}

#[test]
fn fnv_of_known_texts() {
    assert_eq!(fnv1a64(""), 0xcbf2_9ce4_8422_2325);
    assert_eq!(fnv1a64("a"), 0xaf63_dc4c_8601_ec8c);
    assert_eq!(fnv1a64("foobar"), 0x8594_4171_f739_67e8);
}

// Coinbase

const COINBASE_SNAP: &str = r#"{"channel":"l2_data","timestamp":"2026-09-26T04:14:54.777523902Z","sequence_num":0,"events":[{"type":"snapshot","product_id":"SOL-USD","updates":[{"side":"bid","event_time":"2026-09-26T04:14:54.693295Z","price_level":"120.7","new_quantity":"110.06502693"},{"side":"offer","event_time":"2026-09-26T04:14:54.693295Z","price_level":"120.72","new_quantity":"31.20476988"}]}]}"#;
const COINBASE_UPD: &str = r#"{"channel":"l2_data","timestamp":"2026-09-26T04:15:38.40993531Z","sequence_num":1,"events":[{"type":"update","product_id":"SOL-USD","updates":[{"side":"bid","event_time":"2026-09-26T04:15:38.391474Z","price_level":"120.73","new_quantity":"42.55393162"},{"side":"offer","event_time":"2026-09-26T04:15:38.391474Z","price_level":"120.72","new_quantity":"0"}]}]}"#;
const COINBASE_TRADE: &str = r#"{"channel":"market_trades","timestamp":"2026-09-26T04:15:00.2Z","sequence_num":2,"events":[{"type":"update","trades":[{"product_id":"SOL-USD","trade_id":"355495415","price":"120.71","size":"1.29080517","time":"2026-09-26T04:15:00.114692Z","side":"SELL"}]}]}"#;

#[test]
fn snapshot_update_y_contador_contiguo() {
    let mut p = CoinbaseProtocol::new("SOL-USD", true);
    p.on_connect();
    let out = run(&mut p, COINBASE_SNAP);
    let MarketEvent::Snapshot(s) = &out[0] else {
        panic!()
    };
    assert_eq!((s.last_update_id, s.limit), (1, 0));
    assert_eq!(s.asks[0].px, Px::parse("120.72").unwrap());
    let out = run(&mut p, COINBASE_UPD);
    let MarketEvent::Depth(d) = &out[0] else {
        panic!()
    };
    assert_eq!((d.first_id, d.last_id, d.prev_last_id), (2, 2, Some(1)));
    assert_eq!(d.asks[0].qty, Qty::zero());
    assert!(!p.take_resync());
}

#[test]
fn trade_side_es_maker_y_agresor_opuesto() {
    let mut p = CoinbaseProtocol::new("SOL-USD", false);
    p.on_connect();
    let out = run(&mut p, COINBASE_TRADE);
    let MarketEvent::Trade(t) = &out[0] else {
        panic!()
    };
    assert_eq!(t.aggressor, Aggressor::Buy);
    assert_eq!(t.agg_id, 355495415);
}

#[test]
fn hueco_de_secuencia_detiene_profundidad_y_pide_resync() {
    let mut p = CoinbaseProtocol::new("SOL-USD", true);
    p.on_connect();
    run(&mut p, COINBASE_SNAP);
    let gap = COINBASE_UPD.replace("\"sequence_num\":1", "\"sequence_num\":5");
    assert!(
        run(&mut p, &gap).is_empty(),
        "no se emite profundidad tras un hueco"
    );
    assert!(p.take_resync());
    assert!(!p.take_resync(), "el pedido se consume una vez");
    let upd2 = COINBASE_UPD.replace("\"sequence_num\":1", "\"sequence_num\":6");
    assert!(run(&mut p, &upd2).is_empty(), "sigue esperando snapshot");
    let snap2 = COINBASE_SNAP.replace("\"sequence_num\":0", "\"sequence_num\":7");
    let out = run(&mut p, &snap2);
    let MarketEvent::Snapshot(s) = &out[0] else {
        panic!()
    };
    assert_eq!(
        s.last_update_id, 2,
        "el contador sigue avanzando: nunca retrocede"
    );
}

#[test]
fn the_first_line_alone_feeds_the_book() {
    let r = line_roles(3);
    assert_eq!(
        r.iter().map(|l| (l.depth, l.tag)).collect::<Vec<_>>(),
        vec![(true, "level2+trades"), (false, "trades"), (false, "trades")]
    );
    assert_eq!(line_roles(0).len(), 1);
    assert!(line_roles(1)[0].depth);
}

#[test]
fn the_rules_of_an_instrument_are_asked_for_three_times() {
    let next = |wait_s, again| AfterTry { wait_s, again };
    assert_eq!(after_try(1, false), next(2, true));
    assert_eq!(after_try(2, false), next(2, true));
    assert_eq!(after_try(3, false), next(2, false));
    assert_eq!(after_try(1, true), next(0, false));
}

// Kraken

#[test]
fn a_line_of_trades_needs_no_precision() {
    let mut p = KrakenProtocol::new("SOL/USD", false, 2, 12, 9);
    p.on_connect();
    let t = r#"{"channel":"trade","type":"update","data":[{"symbol":"SOL/USD","side":"buy","price":100.5,"qty":2.0,"ord_type":"limit","trade_id":7,"timestamp":"2026-09-26T04:41:10.000000Z"}]}"#;
    assert!(matches!(run(&mut p, t)[0], MarketEvent::Trade(_)));
    assert_eq!(p.checksum_stats(), (0, 0));
}

#[test]
fn recorte_top_n_emite_bajas_y_verifica_checksum() {
    let mut p = KrakenProtocol::new("SOL/USD", true, 2, 2, 8);
    p.on_connect();
    let c1 = crc32("10100100000000100001000000009900100000000".as_bytes());
    let snap = format!(
        r#"{{"channel":"book","type":"snapshot","data":[{{"symbol":"SOL/USD","bids":[{{"price":100.0,"qty":1.0}},{{"price":99.0,"qty":1.0}}],"asks":[{{"price":101.0,"qty":1.0}}],"checksum":{c1},"timestamp":"2026-09-26T04:41:10.000000Z"}}]}}"#
    );
    assert!(matches!(run(&mut p, &snap)[0], MarketEvent::Snapshot(_)));
    let c2 = crc32("101001000000001005010000000010000100000000".as_bytes());
    let upd = format!(
        r#"{{"channel":"book","type":"update","data":[{{"symbol":"SOL/USD","bids":[{{"price":100.5,"qty":1e0}}],"asks":[],"checksum":{c2},"timestamp":"2026-09-26T04:41:10.100000Z"}}]}}"#
    );
    let out = run(&mut p, &upd);
    let MarketEvent::Depth(d) = &out[0] else {
        panic!("se esperaba update verificado")
    };
    assert_eq!(d.bids.len(), 2);
    assert!(d.bids.contains(&Level {
        px: Px::parse("100.5").unwrap(),
        qty: Qty::from_units(1)
    }));
    assert!(d.bids.contains(&Level {
        px: Px::parse("99").unwrap(),
        qty: Qty::zero()
    }));
    assert_eq!(p.checksum_stats(), (2, 0));
}

#[test]
fn a_wrong_checksum_stops_the_depth() {
    let mut p = KrakenProtocol::new("SOL/USD", true, 2, 2, 8);
    p.on_connect();
    let c1 = crc32("10100100000000100001000000009900100000000".as_bytes());
    let snap = format!(
        r#"{{"channel":"book","type":"snapshot","data":[{{"symbol":"SOL/USD","bids":[{{"price":100.0,"qty":1.0}},{{"price":99.0,"qty":1.0}}],"asks":[{{"price":101.0,"qty":1.0}}],"checksum":{c1},"timestamp":"2026-09-26T04:41:10.000000Z"}}]}}"#
    );
    assert!(matches!(run(&mut p, &snap)[0], MarketEvent::Snapshot(_)));
    let c2 = crc32("101001000000001005010000000010000100000000".as_bytes());
    let upd = |c: u32| {
        format!(
            r#"{{"channel":"book","type":"update","data":[{{"symbol":"SOL/USD","bids":[{{"price":100.5,"qty":1}}],"asks":[],"checksum":{c},"timestamp":"2026-09-26T04:41:10.100000Z"}}]}}"#
        )
    };
    assert!(run(&mut p, &upd(c2 ^ 1)).is_empty());
    assert!(p.take_resync());
    assert!(run(&mut p, &upd(c2)).is_empty());
    let out = run(&mut p, &snap);
    let MarketEvent::Snapshot(s) = &out[0] else {
        panic!()
    };
    assert_eq!(s.last_update_id, 2);
    assert_eq!(p.checksum_stats(), (2, 1));
}

#[test]
fn kraken_precision_of_a_pair() {
    let t = r#"{"error":[],"result":{"SOLUSD":{"wsname":"SOL/USD","pair_decimals":2,"lot_decimals":8},"X":{"wsname":"X/USD","pair_decimals":1,"lot_decimals":1}}}"#;
    assert_eq!(read_precision(t, "SOL/USD"), Ok((2, 8)));
    assert_eq!(
        read_precision(t, "Y/USD"),
        Err("par Y/USD inexistente".to_string())
    );
    assert_eq!(
        read_precision(r#"{"error":["a","b"]}"#, "Y/USD"),
        Err("a; b".to_string())
    );
    assert_eq!(
        pairs_url("SOL/USD"),
        "https://api.kraken.com/0/public/AssetPairs?pair=SOLUSD"
    );
    assert_eq!(
        KrakenRestError::Body("x".to_string()).message(),
        "respuesta: x"
    );
    assert_eq!(KrakenRestError::Http("x".to_string()).message(), "http: x");
}

#[test]
fn crc_of_known_bytes() {
    assert_eq!(crc32(b""), 0);
    assert_eq!(crc32(b"123456789"), 0xcbf4_3926);
}

// Records.

fn agg(fields: &str) -> Result<MarketEvent, WireError> {
    let text = format!(r#"{{"stream":"solusdt@aggTrade","data":{fields}}}"#);
    parse_frame(&text, RxStamp::default())
}

#[test]
fn a_field_comes_once() {
    let ok = r#"{"e":"aggTrade","E":5,"a":7,"p":"1.5","q":"2","f":1,"l":1,"T":4,"m":true"#;
    assert!(matches!(agg(&format!("{ok}}}")), Ok(MarketEvent::Trade(_))));
    // A key that is no field may come again, whatever it holds.
    let other = format!(r#"{ok},"x":{{"E":1,"E":2}},"x":"\",\"E\":3","e":":"}}"#);
    assert!(matches!(agg(&other), Ok(MarketEvent::Trade(_))));
    for again in [r#""E":6"#, r#""\u0045":6"#, r#""nq":null,"nq":null"#] {
        let e = agg(&format!("{ok},{again}}}"));
        assert!(matches!(e, Err(WireError::Json(m)) if m.contains("duplicate field")));
    }
}

#[test]
fn a_record_may_be_an_array() {
    let t = agg(r#"[5,7,"1.5","2",null,1,1,4,true]"#);
    let Ok(MarketEvent::Trade(t)) = t else {
        panic!()
    };
    assert_eq!((t.agg_id, t.trade_ts_ms, t.qty_normal), (7, 4, None));
    let short = agg(r#"[5,7,"1.5","2",null,1,1,4]"#);
    assert!(matches!(short, Err(WireError::Json(m)) if m == "invalid length 8"));
    assert!(agg(r#"[5,7,"1.5","2",null,1,1,4,true,0]"#).is_err());
    let mut p = CoinbaseProtocol::new("SOL-USD", false);
    p.on_connect();
    assert!(run(&mut p, "[]").is_empty());
}

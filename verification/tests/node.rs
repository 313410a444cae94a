//! The engine, the views, the simulation and the edges of the node.

use hdrhistogram::Histogram;
use libro_unificado::align::{Aligner, AlignerConfig};
use libro_unificado::args::{parse_args, Args, Parsed, Word};
use libro_unificado::binance::RestError;
use libro_unificado::chaos::{
    sort_trades, ChaosLine, Check, Checker, Fate, SimConfig, SnapshotChaos,
};
use libro_unificado::engine::{
    trade_stream, Engine, EngineConfig, EngineMsg, Io, LineIo, StreamKind, TradeDedup,
};
use libro_unificado::event::{
    AggTrade, Aggressor, DepthDiff, DepthSnapshot, Level, MarketEvent, RxStamp,
};
use libro_unificado::fixed::{Px, Qty};
use libro_unificado::flow::{FlowAgg, Obs};
use libro_unificado::footprint::{Metrics, MetricsConfig};
use libro_unificado::http::{
    content_type, head, health, read_request, read_text, refusal, route, status, triage,
    wants_more, Admission, Health, Route,
};
use libro_unificado::instrument::{InstrumentSpec, MarketId, MarketKind, Venue};
use libro_unificado::net::{LineAction, LineEvent, LinePolicy, LineSpec};
use libro_unificado::plan::{plan, Rule};
use libro_unificado::rule::BinanceSpotRule;
use libro_unificado::sim::{draw_qty, Rng, Truth, TICK};
use libro_unificado::snapshot::{Resubscriber, SnapshotPace};
use libro_unificado::sync::{Phase, SyncBook, SyncConfig};
use libro_unificado::telemetry::{us_to_ms, LatencyHist, MetricType, PromWriter};
use libro_unificado::view::{
    render_prometheus, render_sim, BookView, LatencySummary, SimChecks,
};
use libro_unificado::words::{split_lines, split_words, trim};
use libro_unificado::ws::{
    cvd_frame, frame, hello, interval_ms, notices, param, upgrade_head, upgrade_with, wanted,
    Notice,
};

// Simulation

const START: u64 = 1_790_000_000_000;

#[test]
fn spread_mediano_realista() {
    let mut t = Truth::new(MarketKind::Spot, 7, START);
    let mut ts = t.last_end_ms();
    let mut spreads = Vec::new();
    for _ in 0..20_000 {
        ts += 100;
        t.step(ts);
        let bb = t.highest_bid().unwrap();
        let ba = t.lowest_ask().unwrap();
        spreads.push((ba - bb) / TICK);
    }
    spreads.sort_unstable();
    let med = spreads[spreads.len() / 2];
    let p99 = spreads[spreads.len() * 99 / 100];
    assert!(
        med <= 3 && p99 <= 30,
        "mediana {med} ticks, p99 {p99} ticks"
    );
}

#[test]
fn verdad_nunca_cruzada_y_secuencia_valida() {
    for kind in [MarketKind::Spot, MarketKind::Perp] {
        let mut t = Truth::new(kind, 42, START);
        let mut prev = t.last_id();
        let mut ts = t.last_end_ms();
        for _ in 0..5_000 {
            ts += 100;
            let (d, trades) = t.step(ts);
            let bb = t.highest_bid().unwrap();
            let ba = t.lowest_ask().unwrap();
            assert!(bb < ba, "libro cruzado");
            match kind {
                MarketKind::Spot => assert_eq!(d.first_id, prev + 1),
                MarketKind::Perp => assert_eq!(d.prev_last_id, Some(prev)),
            }
            for tr in &trades {
                assert!(tr.trade_ts_ms > ts - 100 && tr.trade_ts_ms <= ts);
            }
            prev = d.last_id;
        }
    }
}

#[test]
fn draws_repeat_with_their_seed() {
    let mut a = Rng(0x5eed);
    let mut b = Rng(0x5eed);
    for _ in 0..100 {
        assert_eq!(a.next(), b.next());
    }
    for _ in 0..100 {
        assert!(a.below(7) < 7);
        assert!(!a.chance(None));
    }
    let q = draw_qty(&mut a);
    assert!(q > 0);
}

#[test]
fn a_line_without_chaos_delivers_in_order() {
    let cfg = SimConfig::default();
    let mut l = ChaosLine::new(&cfg, 0, 1_000);
    let mut last = 0;
    for k in 0..200u64 {
        let now = 1_000 + k * 10;
        let s = l.on_event(&cfg, now, k % 2 == 0);
        assert!(!s.went_down && !s.came_up);
        let Fate::Deliver(at) = s.fate else {
            panic!("lost without chaos")
        };
        assert!(at >= last && at >= now);
        last = at;
    }
}

#[test]
fn chaos_drops_and_cuts() {
    let cfg = SimConfig {
        drop: Some(1 << 52),
        outage_every_s: 1,
        ..SimConfig::default()
    };
    let mut l = ChaosLine::new(&cfg, 1, 0);
    let (mut cut, mut dropped, mut down, mut up) = (0, 0, 0, 0);
    for k in 0..20_000u64 {
        let s = l.on_event(&cfg, k * 10, false);
        match s.fate {
            Fate::Cut => cut += 1,
            Fate::Dropped => dropped += 1,
            Fate::Deliver(_) => {}
        }
        down += u32::from(s.went_down);
        up += u32::from(s.came_up);
    }
    assert!(cut > 0 && dropped > 0 && down > 0 && up > 0);
    let mut s = SnapshotChaos::new(&cfg);
    for _ in 0..50 {
        let ms = s.latency_ms();
        assert!((50..300).contains(&ms));
        assert!(!s.fails(&cfg));
    }
}

#[test]
fn the_checker_compares_each_id_once() {
    let mut t = Truth::new(MarketKind::Spot, 3, START);
    let (d, _) = t.step(START + 100);
    let id = d.last_id;
    let (bids, asks) = {
        let top = t.top_of(id).expect("remembered");
        (top.bids.clone(), top.asks.clone())
    };
    let mut c = Checker::new();
    assert!(matches!(
        c.check(&t, false, id, &bids, &asks),
        Check::Skipped
    ));
    assert!(matches!(c.check(&t, true, id, &bids, &asks), Check::Agrees));
    let mut wrong = bids.clone();
    wrong[0].1 = Qty::from_raw(wrong[0].1.raw() + 1);
    let mut c = Checker::new();
    assert!(matches!(
        c.check(&t, true, id, &wrong, &asks),
        Check::Differs
    ));
}

fn trade_at(id: u64, ts: u64, line: u8) -> AggTrade {
    AggTrade {
        agg_id: id,
        first_trade_id: id,
        last_trade_id: id + 1,
        px: Px::from_units(100),
        qty: Qty::from_units(2),
        qty_normal: None,
        aggressor: Aggressor::Buy,
        trade_ts_ms: ts,
        exch_ts_ms: ts,
        rx: RxStamp {
            line,
            wall_ns: (ts + 3) * 1_000_000,
            mono_ns: 0,
        },
    }
}

#[test]
fn trades_leave_in_the_order_of_the_socket() {
    let v = vec![
        trade_at(3, 30, 0),
        trade_at(1, 10, 0),
        trade_at(4, 30, 0),
        trade_at(2, 20, 0),
    ];
    let ids: Vec<u64> = sort_trades(v).iter().map(|t| t.agg_id).collect();
    assert_eq!(ids, vec![1, 2, 3, 4]);
}

// Engine

#[test]
fn dedup_ab_con_ventana() {
    let mut d = TradeDedup::new(3);
    assert!(d.accept(10));
    assert!(!d.accept(10));
    assert!(d.accept(12));
    assert!(d.accept(11));
    assert!(d.accept(13));
    assert!(!d.accept(10));
    assert!(!d.accept(12));
}

fn obs() -> Obs {
    Aligner::new(
        AlignerConfig::default(),
        (FlowAgg::default(), Metrics::new(MetricsConfig::default())),
    )
}

fn engine() -> Engine<BinanceSpotRule> {
    let m = MarketId::new(Venue::Binance, MarketKind::Spot, "SOLUSDT");
    Engine::new(
        &m,
        SyncBook::new(BinanceSpotRule, SyncConfig::default(), obs()),
        EngineConfig::default(),
    )
}

fn io() -> Io {
    let l = LineIo {
        depth_up: true,
        trade_up: false,
        disconnects: 2,
        depth_latency: LatencySummary::default(),
        trade_latency: LatencySummary::default(),
    };
    Io {
        lines: [l; 4],
        ingest_dropped: 5,
        parse_errors: 6,
        rest_weight_1m: 7,
        wall_ms: 2_000,
    }
}

fn level(p: i64, q: i64) -> Level {
    Level {
        px: Px::from_raw(p),
        qty: Qty::from_units(q),
    }
}

fn depth(first: u64, last: u64, ts: u64, line: u8) -> DepthDiff {
    DepthDiff {
        first_id: first,
        last_id: last,
        prev_last_id: None,
        exch_ts_ms: ts,
        match_ts_ms: None,
        bids: vec![level(9_900_000_000, 5), level(9_800_000_001, 1)],
        asks: vec![],
        rx: RxStamp {
            line,
            wall_ns: (ts + 5) * 1_000_000,
            mono_ns: 0,
        },
    }
}

fn snapshot(id: u64) -> DepthSnapshot {
    DepthSnapshot {
        last_update_id: id,
        limit: 1000,
        bids: vec![level(9_900_000_000, 1)],
        asks: vec![level(10_100_000_001, 1)],
        exch_ts_ms: None,
        rolling: false,
        rx: RxStamp::default(),
    }
}

#[test]
fn an_engine_publishes_prices_only_while_live() {
    let mut e = engine();
    let st = e.handle(EngineMsg::Event(MarketEvent::Depth(depth(101, 101, 1_000, 0))), 0);
    assert!(st.need_snapshot);
    let v = e.publish(&io());
    assert_eq!(v.market, "binance.spot.SOLUSDT");
    assert_eq!(v.phase, Phase::Syncing);
    assert!(v.best_bid.is_none() && v.mid.is_none() && v.top_bids.is_empty());
    let st = e.handle(EngineMsg::Snapshot(snapshot(100)), 1);
    assert!(st.went_live);
    let v = e.publish(&io());
    assert_eq!(v.phase, Phase::Live);
    assert_eq!(v.best_bid.unwrap().qty, Qty::from_units(5));
    assert_eq!(v.mid, Some(Px::from_raw(10_000_000_000)));
    assert_eq!(v.levels, (2, 1));
    assert_eq!(v.top_bids.len(), 2);
    assert_eq!(v.top_bids[0].px, Px::from_raw(9_900_000_000));
    assert_eq!(v.book_age_ms, 1_000);
    assert_eq!(v.lines.len(), 4);
    assert_eq!(v.lines[0].depth_first, 1);
    assert_eq!(v.lines[1].line, 1);
    assert_eq!((v.ingest_dropped, v.parse_errors, v.rest_weight_1m), (5, 6, 7));
    assert_eq!(v.unaccounted, 0);
    assert_eq!(v.flow.unaccounted, 0);
    assert!(v.spread_bps.is_none());
    let h = e.depth_latency(0).unwrap();
    assert_eq!(h.count(), 1);
    assert_eq!(e.depth_latency(4).map(|h| h.count()), None);
    assert_eq!(e.trade_latency(0).unwrap().count(), 0);
    assert_eq!(e.label(), "binance.spot.SOLUSDT");
    assert_eq!(e.publish_metrics().now_ms, 0);
}

#[test]
fn a_snapshot_in_the_stream_serves_too() {
    let mut e = engine();
    e.handle(EngineMsg::Event(MarketEvent::Depth(depth(101, 101, 1_000, 0))), 0);
    let st = e.handle(EngineMsg::Event(MarketEvent::Snapshot(snapshot(100))), 1);
    assert!(st.went_live);
    let st = e.handle(EngineMsg::Event(MarketEvent::Ignored), 2);
    assert!(!st.need_snapshot);
    let st = e.handle(EngineMsg::Shutdown, 3);
    assert!(!st.need_snapshot);
}

#[test]
fn prices_off_the_step_are_counted() {
    let mut e = engine();
    e.handle(EngineMsg::Event(MarketEvent::Depth(depth(101, 101, 1_000, 0))), 0);
    assert_eq!(e.publish(&io()).off_tick_levels, 0);
    e.handle(
        EngineMsg::Spec(InstrumentSpec {
            market: MarketId::new(Venue::Binance, MarketKind::Spot, "SOLUSDT"),
            tick: Px::from_raw(1_000_000),
            step: Qty::from_raw(10),
            base_per_contract: Qty::from_units(1),
        }),
        0,
    );
    e.handle(EngineMsg::Event(MarketEvent::Depth(depth(102, 102, 1_000, 0))), 0);
    let v = e.publish(&io());
    assert_eq!(v.off_tick_levels, 1);
    assert_eq!(v.tick, Some(Px::from_raw(1_000_000)));
    assert_eq!(v.step, Some(Qty::from_raw(10)));
}

#[test]
fn repeated_trades_count_once() {
    let mut e = engine();
    for line in [0, 1] {
        e.handle(
            EngineMsg::Event(MarketEvent::Trade(trade_at(7, 1_000, line))),
            0,
        );
    }
    let mut rpi = trade_at(8, 1_001, 1);
    rpi.aggressor = Aggressor::Sell;
    rpi.qty_normal = Some(Qty::from_units(1));
    e.handle(EngineMsg::Event(MarketEvent::Trade(rpi)), 0);
    let v = e.publish(&io());
    let t = v.trades;
    assert_eq!((t.rx, t.unique, t.dup, t.fills), (3, 2, 1, 4));
    assert_eq!(t.buy_qty, Qty::from_units(2));
    assert_eq!(t.sell_qty, Qty::from_units(2));
    assert_eq!(t.rpi_qty, Qty::from_units(1));
    assert_eq!(t.with_nq, 1);
    assert_eq!(t.last_px, Some(Px::from_units(100)));
    assert_eq!(v.lines[0].trades_first, 1);
    assert_eq!(v.lines[1].trades_first, 1);
    assert_eq!(e.trade_latency(1).unwrap().count(), 2);
    let levels = e.trade_latency(0).unwrap().levels();
    assert_eq!(levels.len(), 1);
    assert!((3_000..=3_003).contains(&levels[0].0));
}

#[test]
fn what_is_due_keeps_its_periods() {
    let mut e = engine();
    let b = e.on_tick(0);
    assert!(b.publish && b.metrics);
    let b = e.on_tick(249);
    assert!(!b.publish && !b.metrics);
    let b = e.on_tick(250);
    assert!(b.publish && !b.metrics);
    let b = e.on_tick(1_000);
    assert!(b.publish && b.metrics);
}

// Telemetry

#[test]
fn histograma_percentiles_y_negativos() {
    let mut h = LatencyHist::new();
    for us in 1..=1000 {
        h.record_us(us * 1000);
    }
    h.record_us(-5);
    assert_eq!(h.count(), 1000);
    assert_eq!(h.negatives(), 1);
    let mut x = Histogram::<u64>::new_with_bounds(1, 60_000_000, 3).unwrap();
    for (v, n) in h.levels() {
        x.saturating_record_n(v, n);
    }
    let p = |q: f64| x.value_at_quantile(q) as f64 / 1000.0;
    assert!((p(0.50) - 500.0).abs() < 1.0);
    assert!((p(0.99) - 990.0).abs() < 2.0);
    h.reset();
    assert_eq!((h.count(), h.negatives()), (0, 0));
    assert!(h.levels().is_empty());
    assert_eq!(h.max_us(), 0);
}

#[test]
fn latencies_stay_within_their_limits() {
    let mut h = LatencyHist::new();
    h.record_us(0);
    h.record_us(i64::MAX);
    h.record_us(i64::MIN);
    let v = h.levels();
    assert_eq!(v.len(), 2);
    assert_eq!(v[0], (1, 1));
    assert_eq!(v[1], (60_030_975, 1));
    assert_eq!(h.max_us(), 60_030_975);
    assert_eq!(h.negatives(), 1);
    h.record_us(1);
    assert_eq!(h.levels()[0], (1, 2));
}

#[test]
fn a_latency_is_kept_with_three_figures() {
    for (us, level) in [(0, 1), (2_047, 2_047), (2_048, 2_049), (4_095, 4_095), (4_097, 4_099)] {
        let mut h = LatencyHist::new();
        h.record_us(us);
        assert_eq!(h.levels(), vec![(level, 1)]);
    }
}

#[test]
fn prometheus_escapa_y_declara_una_vez() {
    let mut w = PromWriter::new();
    w.sample(
        "lu_x_total",
        "x",
        MetricType::Counter,
        &[("m", "a\"b")],
        "1",
    );
    w.sample("lu_x_total", "x", MetricType::Counter, &[("m", "c")], "2");
    let t = w.finish();
    assert_eq!(t.matches("# TYPE lu_x_total counter").count(), 1);
    assert!(t.contains("lu_x_total{m=\"a\\\"b\"} 1"));
}

#[test]
fn a_sample_without_labels_has_no_braces() {
    let mut w = PromWriter::new();
    w.sample("lu_y", "some y", MetricType::Gauge, &[], "-3");
    w.sample("lu_z", "z", MetricType::Gauge, &[("a", "\\"), ("b", "x\ny")], "0");
    assert_eq!(
        w.finish(),
        "# HELP lu_y some y\n# TYPE lu_y gauge\nlu_y -3\n# HELP lu_z z\n# TYPE lu_z gauge\nlu_z{a=\"\\\\\",b=\"x\\ny\"} 0\n"
    );
}

#[test]
fn microseconds_are_shown_in_milliseconds() {
    assert_eq!(us_to_ms(0), "0");
    assert_eq!(us_to_ms(62_600), "62.6");
    assert_eq!(us_to_ms(1), "0.001");
    assert_eq!(us_to_ms(1_050), "1.05");
    assert_eq!(us_to_ms(250_000), "250");
}

#[test]
fn the_page_shows_every_market() {
    let mut v = BookView::empty("binance.spot.SOLUSDT".to_string());
    v.phase = Phase::Live;
    v.epoch = 3;
    v.book_age_ms = -4;
    v.spread_bps = Some("1.25".to_string());
    v.lines[1].depth_up = true;
    v.lines[1].depth_latency.p99_us = 62_600;
    v.sync.resync_crossed = 2;
    let w = BookView::empty("okx.perp.SOLUSDT".to_string());
    let t = render_prometheus(&[&v, &w]);
    assert!(t.contains("lu_book_live{market=\"binance.spot.SOLUSDT\"} 1\n"));
    assert!(t.contains("lu_book_live{market=\"okx.perp.SOLUSDT\"} 0\n"));
    assert!(t.contains("lu_book_age_ms{market=\"binance.spot.SOLUSDT\"} -4\n"));
    assert!(t.contains("lu_book_spread_bps{market=\"binance.spot.SOLUSDT\"} 1.25\n"));
    assert!(!t.contains("lu_book_spread_bps{market=\"okx.perp.SOLUSDT\"}"));
    assert!(t.contains(
        "lu_sync_resync_total{market=\"binance.spot.SOLUSDT\",reason=\"crossed\"} 2\n"
    ));
    assert!(t.contains(
        "lu_line_up{market=\"binance.spot.SOLUSDT\",line=\"1\",stream=\"depth\"} 1\n"
    ));
    assert!(t.contains("lu_line_latency_ms{market=\"binance.spot.SOLUSDT\",line=\"1\",stream=\"depth\",quantile=\"0.99\"} 62.6\n"));
    assert!(!t.contains("line=\"0\""));
    assert!(t.contains("lu_flow_unaccounted{market=\"okx.perp.SOLUSDT\"} 0\n"));
    assert_eq!(t.matches("# TYPE lu_book_live gauge").count(), 1);
    assert_eq!(t.matches("# HELP ").count(), t.matches("# TYPE ").count());
    let s = render_sim(&[(
        "m",
        SimChecks {
            checks_ok: 9,
            checks_mismatch: 0,
        },
    )]);
    assert!(s.contains("lu_sim_checks_total{market=\"m\",result=\"ok\"} 9\n"));
    assert!(s.contains("lu_sim_checks_total{market=\"m\",result=\"mismatch\"} 0\n"));
    assert_eq!(render_sim(&[]), "");
}

// Arguments and plan

fn word(t: &str) -> Word {
    Word {
        text: t.to_string(),
        is_addr: t.contains(':'),
        chance: match t {
            "0" => Some(None),
            "0.5" => Some(Some(1 << 52)),
            _ => None,
        },
    }
}

fn parsed(args: &[&str]) -> Parsed {
    let w: Vec<Word> = args.iter().map(|t| word(t)).collect();
    parse_args(&w)
}

fn run_args(args: &[&str]) -> Args {
    match parsed(args) {
        Parsed::Run(a) => a,
        Parsed::Help => panic!("help"),
        Parsed::Fail(e) => panic!("{e}"),
    }
}

fn refused(args: &[&str]) -> String {
    match parsed(args) {
        Parsed::Fail(e) => e,
        _ => panic!("accepted"),
    }
}

#[test]
fn the_usual_options() {
    let a = run_args(&[]);
    assert_eq!(a.symbol, "SOLUSDT");
    assert_eq!(a.venues, vec![Venue::Binance]);
    assert_eq!(a.coinbase_product, "SOL-USD");
    assert_eq!(a.markets, vec![MarketKind::Spot, MarketKind::Perp]);
    assert_eq!((a.lines, a.io_threads, a.pin), (2, 1, false));
    assert_eq!(a.listen, "127.0.0.1:9100");
    assert_eq!(a.log, "info");
    assert!(a.ca_file.is_none() && a.sim.is_none());
}

#[test]
fn options_are_read() {
    let a = run_args(&[
        "--symbol",
        "btcusdt",
        "--venues",
        " okx , coinbase",
        "--markets",
        "perp",
        "--lines",
        "4",
        "--listen",
        "0.0.0.0:1",
        "--io-threads",
        "3",
        "--pin",
        "--ca-file",
        "x.pem",
        "--log",
        "debug",
        "--coinbase-product",
        "btc-usd",
    ]);
    assert_eq!(a.symbol, "BTCUSDT");
    assert_eq!(a.venues, vec![Venue::Okx, Venue::Coinbase]);
    assert_eq!(a.coinbase_product, "BTC-USD");
    assert_eq!(a.markets, vec![MarketKind::Perp]);
    assert_eq!((a.lines, a.io_threads, a.pin), (4, 3, true));
    assert_eq!(a.listen, "0.0.0.0:1");
    assert_eq!(a.log, "debug");
    assert_eq!(a.ca_file.as_deref(), Some("x.pem"));
}

#[test]
fn a_level_of_the_log_is_a_name_or_a_number() {
    for t in ["error", "WARN", "Info", "debug", "tRaCe", "1", "5", "+3", "04"] {
        assert_eq!(run_args(&["--log", t]).log, t);
    }
    for t in ["", "0", "6", "-1", "warning", "off", "inf\u{f6}"] {
        assert_eq!(refused(&["--log", t]), "--log inválido");
    }
}

#[test]
fn the_simulation_takes_the_place_of_the_venues() {
    let a = run_args(&[
        "--venues",
        "okx",
        "--sim",
        "--sim-seed",
        "9",
        "--chaos-drop",
        "0.5",
        "--chaos-jitter-ms",
        "40",
        "--chaos-outage-s",
        "120",
        "--chaos-snapshot-fail",
        "0",
    ]);
    assert_eq!(a.venues, vec![Venue::Binance]);
    let s = a.sim.unwrap();
    assert_eq!((s.seed, s.jitter_ms, s.outage_every_s), (9, 40, 120));
    assert_eq!(s.drop, Some(1 << 52));
    assert_eq!(s.snapshot_fail, None);
}

#[test]
fn options_that_do_not_serve_are_refused() {
    assert_eq!(refused(&["--lines", "5"]), "--lines debe estar en 1..=4");
    assert_eq!(refused(&["--lines", "0"]), "--lines debe estar en 1..=4");
    assert_eq!(refused(&["--lines", "x"]), "--lines inválido");
    assert_eq!(refused(&["--lines"]), "falta valor para --lines");
    assert_eq!(refused(&["--nope"]), "argumento desconocido: --nope");
    assert_eq!(
        refused(&["--venues", "binance,kraken"]),
        "venue no soportado aún: kraken (binance, okx, coinbase)"
    );
    assert_eq!(refused(&["--markets", "spot,x"]), "mercado desconocido: x");
    assert_eq!(refused(&["--listen", "x"]), "--listen inválido");
    assert_eq!(refused(&["--log", "x"]), "--log inválido");
    assert_eq!(refused(&["--io-threads", "-1"]), "--io-threads inválido");
    assert_eq!(refused(&["--sim-seed", "x"]), "--sim-seed inválido");
    assert_eq!(
        refused(&["--chaos-jitter-ms", "x"]),
        "--chaos-jitter-ms inválido"
    );
    assert_eq!(
        refused(&["--chaos-outage-s", "x"]),
        "--chaos-outage-s inválido"
    );
    assert_eq!(
        refused(&["--chaos-drop", "2"]),
        "probabilidad inválida: 2 (0..1)"
    );
    assert_eq!(
        refused(&["--chaos-snapshot-fail", "x"]),
        "probabilidad inválida: x (0..1)"
    );
    assert!(matches!(parsed(&["--help"]), Parsed::Help));
    assert!(matches!(parsed(&["--pin", "-h", "--nope"]), Parsed::Help));
}

#[test]
fn the_plan_of_the_markets() {
    let kinds = vec![MarketKind::Spot, MarketKind::Perp];
    let p = plan(&vec![Venue::Binance], &kinds, "SOLUSDT", "SOL-USD");
    let keys: Vec<&str> = p.iter().map(|x| x.key.as_str()).collect();
    assert_eq!(keys, vec!["spot", "perp"]);
    assert_eq!(p[0].rule, Rule::BinanceSpot);
    assert_eq!(p[1].rule, Rule::BinanceFutures);
    let p = plan(
        &vec![Venue::Okx, Venue::Coinbase],
        &kinds,
        "SOLUSDT",
        "SOL-USD",
    );
    let keys: Vec<&str> = p.iter().map(|x| x.key.as_str()).collect();
    assert_eq!(keys, vec!["okx.spot", "okx.perp", "coinbase.spot"]);
    assert_eq!(p[2].market.to_string(), "coinbase.spot.SOLUSD");
    assert!(p.iter().all(|x| x.rule == Rule::Okx));
}

// Snapshots and lines

#[test]
fn fetches_keep_their_distance() {
    let mut p = SnapshotPace::new();
    assert_eq!(p.pause_ms(5), 0);
    p.fetching(5);
    assert_eq!(p.pause_ms(105), 900);
    assert_eq!(p.pause_ms(2_000), 0);
    assert_eq!(p.failed(None), 500);
    assert_eq!(p.failed(None), 1_000);
    let e = RestError::of_status(429, Some("9"), "h");
    assert_eq!(p.failed(Some(&e)), 9_000);
    assert_eq!(p.failed(None), 4_000);
    for _ in 0..10 {
        p.failed(None);
    }
    assert_eq!(p.failed(None), 30_000);
    p.requested();
    assert_eq!(p.failed(None), 500);
}

#[test]
fn lines_take_turns_to_subscribe_again() {
    let mut r = Resubscriber::new(2, 1_000);
    assert_eq!(r.on_request(3_999), None);
    assert_eq!(r.on_request(4_000), Some((0, 0)));
    assert_eq!(r.on_request(4_400), Some((1, 600)));
    assert_eq!(r.on_request(9_000), Some((0, 0)));
    assert_eq!(Resubscriber::new(0, 0).on_request(9_000), None);
}

#[test]
fn a_line_that_fails_waits_and_changes_url() {
    let mut p = LinePolicy::new(1);
    assert_eq!(p.url(), 0);
    let a = p.on(LineEvent::Down);
    assert!(matches!(a, LineAction::Now | LineAction::Wait(_)));
    for _ in 0..20 {
        if let LineAction::Wait(ms) = p.on(LineEvent::Refused("HTTP error: 451")) {
            assert!(ms > 0 && ms <= 60_000);
        }
    }
    assert!(matches!(p.on(LineEvent::Shutdown), LineAction::Stop));
    let s = LineSpec::new("m/depth", 1, "wss://x").with_fallbacks(vec!["wss://y".to_string()]);
    assert_eq!(s.label, "m/depth");
    assert_eq!(s.fallback_urls, vec!["wss://y".to_string()]);
}

// Requests

#[test]
fn requests_are_read() {
    let b = b"GET /ws?markets=spot HTTP/1.1\r\nHost: x\r\nUpgrade: WebSocket\r\nsec-WebSocket-Key:  abc \r\n\r\n";
    let r = read_request(b);
    assert_eq!(
        (r.method.as_str(), r.path.as_str(), r.query.as_str()),
        ("GET", "/ws", "markets=spot")
    );
    assert_eq!(r.ws_key.as_deref(), Some("abc"));
    assert_eq!(triage(&r, 0), Admission::Session);
    assert_eq!(triage(&r, 16), Admission::Full);
    let r = read_text("GET /ws HTTP/1.1\r\nsec-websocket-key: abc\r\n\r\n");
    assert!(r.ws_key.is_none());
    assert_eq!(triage(&r, 0), Admission::Route);
    let r = read_text("POST /book/spot\r\n");
    assert_eq!(triage(&r, 0), Admission::NotGet);
    let r = read_text("");
    assert_eq!((r.method.as_str(), r.path.as_str()), ("", "/"));
    let r = read_request(b"GET /\xff HTTP/1.1\r\n\r\n");
    assert_eq!(r.path, "/\u{fffd}");
}

#[test]
fn reading_stops_at_the_end_of_the_head() {
    assert!(wants_more(b"GET / HTTP/1.1\r\n"));
    assert!(!wants_more(b"GET / HTTP/1.1\r\n\r\n"));
    assert!(!wants_more(b"\r\n\r\nrest"));
    assert!(!wants_more(&[b'x'; 4096]));
    assert!(wants_more(&[b'x'; 4095]));
}

#[test]
fn paths_lead_where_they_should() {
    let keys = ["spot", "okx.perp"];
    assert_eq!(route("/", &keys), Route::Ui);
    assert_eq!(route("/ui", &keys), Route::Ui);
    assert_eq!(route("/metrics", &keys), Route::Metrics);
    assert_eq!(route("/health", &keys), Route::Health);
    assert_eq!(route("/ready", &keys), Route::Ready);
    assert_eq!(route("/book/okx.perp", &keys), Route::Book(1));
    assert_eq!(route("/book/x", &keys), Route::NoMarket);
    assert_eq!(route("/footprint/spot", &keys), Route::Footprint(0));
    assert_eq!(route("/footprint/", &keys), Route::NoMarket);
    assert_eq!(route("/cvd", &keys), Route::Cvd);
    assert_eq!(route("/x", &keys), Route::Unknown);
    assert_eq!(status(Route::Ready, true, false), 200);
    assert_eq!(status(Route::Ready, false, true), 503);
    assert_eq!(status(Route::Health, false, false), 200);
    assert_eq!(status(Route::Cvd, true, false), 503);
    assert_eq!(status(Route::NoMarket, true, true), 404);
    assert_eq!(content_type(Route::Cvd, 503), "text/plain");
    assert_eq!(content_type(Route::Cvd, 200), "application/json");
    assert_eq!(content_type(Route::Ui, 200), "text/html; charset=utf-8");
}

#[test]
fn answers_have_their_head() {
    assert_eq!(
        head(404, "text/plain", 12),
        "HTTP/1.1 404 Not Found\r\nContent-Type: text/plain\r\nContent-Length: 12\r\nCache-Control: no-store\r\nX-Content-Type-Options: nosniff\r\nConnection: close\r\n\r\n"
    );
    assert!(head(200, "x", 0).starts_with("HTTP/1.1 200 OK\r\n"));
    assert!(head(405, "x", 0).starts_with("HTTP/1.1 405 Method Not Allowed\r\n"));
    assert!(head(503, "x", 0).starts_with("HTTP/1.1 503 Service Unavailable\r\n"));
}

#[test]
fn health_tells_every_market() {
    let h = |market, phase| Health {
        market,
        phase,
        book_age_ms: -2,
        epoch: 3,
        resyncs: 4,
    };
    assert_eq!(
        health(&[h("a\"b", Phase::Live), h("c", Phase::Syncing)]),
        "{\"markets\":[{\"book_age_ms\":-2,\"epoch\":3,\"market\":\"a\\\"b\",\"phase\":\"live\",\"resyncs\":4},{\"book_age_ms\":-2,\"epoch\":3,\"market\":\"c\",\"phase\":\"syncing\",\"resyncs\":4}],\"status\":\"syncing\"}\n"
    );
    assert_eq!(health(&[]), "{\"markets\":[],\"status\":\"live\"}\n");
    assert!(health(&[h("\u{8}\t\n\u{c}\r\\\u{1}\u{1f}/ñ\u{7f}", Phase::Live)])
        .contains(r#""market":"\b\t\n\f\r\\\u0001\u001f/ñ"#));
}

#[test]
fn sessions_open_and_say_hello() {
    let h = upgrade_head("dGhlIHNhbXBsZSBub25jZQ==");
    assert!(h.contains("Sec-WebSocket-Accept: s3pPLMBiTxaQ9kYGzzhZRbK+xOo=\r\n\r\n"));
    assert!(upgrade_with("x").ends_with("Sec-WebSocket-Accept: x\r\n\r\n"));
    assert_eq!(param("a=1&b=2&a=3", "a").as_deref(), Some("1"));
    assert_eq!(param("a&b=2", "a"), None);
    assert_eq!(interval_ms(""), 250);
    assert_eq!(interval_ms("interval_ms=1"), 100);
    assert_eq!(interval_ms("interval_ms=99999"), 5_000);
    assert_eq!(interval_ms("interval_ms=700"), 700);
    assert_eq!(interval_ms("interval_ms=x"), 250);
    assert!(wanted("", "spot"));
    assert!(wanted("markets=spot,perp", "perp"));
    assert!(!wanted("markets=spot", "perp"));
    assert!(!wanted("markets=", "perp"));
    assert_eq!(
        hello(&["spot", "perp"], 250),
        "{\"interval_ms\":250,\"markets\":[\"spot\",\"perp\"],\"type\":\"hello\"}"
    );
    assert_eq!(
        frame("book", "spot", "{}"),
        "{\"type\":\"book\",\"key\":\"spot\",\"data\":{}}"
    );
    assert_eq!(cvd_frame("{}"), "{\"type\":\"cvd\",\"data\":{}}");
}

#[test]
fn a_session_sends_the_candles_when_they_change() {
    assert_eq!(
        notices(&[true, false], true),
        vec![
            Notice::Book(0),
            Notice::Footprint(0),
            Notice::Book(1),
            Notice::Cvd
        ]
    );
    assert_eq!(notices(&[false], false), vec![Notice::Book(0)]);
    assert_eq!(notices(&[], true), vec![Notice::Cvd]);
}

#[test]
fn answers_without_data_say_why() {
    assert_eq!(
        refusal(Route::Cvd, false),
        Some("requiere spot y perp en vivo\n")
    );
    assert_eq!(refusal(Route::Cvd, true), None);
    assert_eq!(
        refusal(Route::NoMarket, false),
        Some("mercado no registrado\n")
    );
    assert_eq!(
        refusal(Route::Unknown, true),
        Some("rutas: / /ui /ws /health /ready /metrics /cvd /book/<m> /footprint/<m>\n")
    );
    assert_eq!(refusal(Route::Ready, false), None);
}

#[test]
fn spot_trades_come_with_the_depth() {
    assert_eq!(trade_stream(MarketKind::Spot), StreamKind::Depth);
    assert_eq!(trade_stream(MarketKind::Perp), StreamKind::Trade);
}

#[test]
fn texts_are_cut_as_they_should() {
    assert_eq!(split_lines("a\r\nb\n\nc\r"), vec!["a", "b", "", "c\r"]);
    assert_eq!(split_words("  a\tb \n c"), vec!["a", "b", "c"]);
    assert_eq!(trim(" \u{3000}x y\r\n"), "x y");
}

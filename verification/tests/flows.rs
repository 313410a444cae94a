//! Alignment of trades with the book, metrics and the delta of the book.

use libro_unificado::align::{
    Aligner, AlignerConfig, BatchInfo, Contamination, FlowSink, LevelFlow,
};
use libro_unificado::book::{BookState, L2Book};
use libro_unificado::cvd::{book_cvd, compute, CvdMarket};
use libro_unificado::event::{
    AggTrade, Aggressor, DepthDiff, DepthSnapshot, Level, RxStamp, Side,
};
use libro_unificado::fixed::{Px, Qty, SCALE};
use libro_unificado::flow::{flow_view, FlowAgg, FlowView, RECENT};
use libro_unificado::footprint::{
    CellView, Liquidity, Metrics, MetricsConfig, MetricsView, TF_15M, TF_1H, TF_4H,
};
use libro_unificado::observer::BookObserver;
use libro_unificado::sync::ResyncReason;
use std::collections::BTreeMap;

#[derive(Default)]
struct Collect {
    flows: Vec<LevelFlow>,
    batches: Vec<BatchInfo>,
}

impl FlowSink for Collect {
    type State = ();

    fn state(&self) {}

    fn flow_next(_: (), _: LevelFlow) {}

    fn batch_next(_: (), _: BatchInfo) {}

    fn rebuild_next(_: (), _: u64, _: BookState) {}

    fn invalidate_next(_: (), _: u64, _: ResyncReason) {}

    fn on_level_flow(&mut self, f: &LevelFlow) {
        self.flows.push(*f);
    }

    fn on_batch(&mut self, b: &BatchInfo) {
        self.batches.push(*b);
    }

    fn on_rebuild(&mut self, _epoch: u64, _book: &L2Book) {}

    fn on_invalidate(&mut self, _epoch: u64, _reason: ResyncReason) {}
}

fn one_level_book() -> L2Book {
    let mut book = L2Book::new();
    book.load_snapshot(&DepthSnapshot {
        last_update_id: 1,
        limit: 5000,
        rolling: false,
        bids: vec![Level {
            px: Px::from_units(99),
            qty: Qty::from_units(10),
        }],
        asks: vec![],
        exch_ts_ms: None,
        rx: RxStamp::default(),
    });
    book
}

fn empty_diff(id: u64, ts: u64, match_ts_ms: Option<u64>) -> DepthDiff {
    DepthDiff {
        first_id: id,
        last_id: id,
        prev_last_id: None,
        exch_ts_ms: ts,
        match_ts_ms,
        bids: vec![],
        asks: vec![],
        rx: RxStamp::default(),
    }
}

#[test]
fn contaminado_primer_lote_y_tardio_contado() {
    let mut a = Aligner::new(AlignerConfig::default(), Collect::default());
    let book = one_level_book();
    a.on_rebuild(1, &book);
    let mk = |id: u64, ts: u64| empty_diff(id, ts, None);
    let trade = |ts: u64, q: i64| AggTrade {
        agg_id: ts,
        first_trade_id: 1,
        last_trade_id: 3,
        px: Px::from_units(99),
        qty: Qty::from_units(q),
        qty_normal: None,
        aggressor: Aggressor::Sell,
        trade_ts_ms: ts,
        exch_ts_ms: ts,
        rx: RxStamp::default(),
    };
    a.on_diff_applied(&mk(2, 100));
    a.on_level(
        Side::Bid,
        Px::from_units(99),
        Qty::from_units(10),
        Qty::from_units(4),
        200,
    );
    a.on_trade(&trade(150, 2));
    a.on_diff_applied(&mk(3, 200));
    a.on_diff_applied(&mk(4, 300));
    a.on_trade(&trade(301, 1));
    let s = a.sink();
    assert_eq!(
        s.batches[0].contaminated,
        Some(Contamination::EpochStart)
    );
    let f = s.flows.iter().find(|f| f.end_ts_ms == 200).unwrap();
    assert!(f.clean);
    assert_eq!(f.executed, Qty::from_units(2));
    assert_eq!(f.n_fills, 3);
    assert_eq!(f.cancelado_min, Qty::from_units(4));
    assert_eq!(f.no_visible_min, Qty::zero());
    a.on_trade(&trade(120, 1));
    assert_eq!(a.stats().late, 1);
    assert_eq!(a.unaccounted(), 0);
}

#[test]
fn diffs_con_mismo_tiempo_se_fusionan_conservando_q0() {
    let mut a = Aligner::new(AlignerConfig::default(), Collect::default());
    let book = one_level_book();
    a.on_rebuild(1, &book);
    let mk = |id: u64, ts: u64| empty_diff(id, ts, Some(ts));
    let p = Px::from_units(99);
    a.on_diff_applied(&mk(2, 100));
    a.on_level(Side::Bid, p, Qty::from_units(10), Qty::from_units(7), 200);
    a.on_diff_applied(&mk(3, 200));
    a.on_level(Side::Bid, p, Qty::from_units(7), Qty::from_units(5), 200);
    a.on_diff_applied(&mk(4, 200));
    a.on_diff_applied(&mk(5, 300));
    a.on_trade(&AggTrade {
        agg_id: 1,
        first_trade_id: 1,
        last_trade_id: 1,
        px: Px::from_units(50),
        qty: Qty::from_units(1),
        qty_normal: None,
        aggressor: Aggressor::Sell,
        trade_ts_ms: 301,
        exch_ts_ms: 301,
        rx: RxStamp::default(),
    });
    let f = a
        .sink()
        .flows
        .iter()
        .find(|f| f.end_ts_ms == 200)
        .copied()
        .unwrap();
    assert_eq!((f.q0, f.q1), (Qty::from_units(10), Qty::from_units(5)));
    assert_eq!(f.cancelado_min, Qty::from_units(5));
    assert_eq!(a.sink().batches.len(), 2);
}

#[test]
fn marca_de_agua_espera_a_todas_las_lineas_vivas() {
    let mut a = Aligner::new(AlignerConfig::default(), Collect::default());
    let b = one_level_book();
    a.on_rebuild(1, &b);
    let d = |id: u64, ts: u64| empty_diff(id, ts, None);
    let tr = |id: u64, ts: u64, line: u8| AggTrade {
        agg_id: id,
        first_trade_id: id,
        last_trade_id: id,
        px: Px::from_units(99),
        qty: Qty::from_units(1),
        qty_normal: None,
        aggressor: Aggressor::Sell,
        trade_ts_ms: ts,
        exch_ts_ms: ts,
        rx: RxStamp {
            line,
            ..RxStamp::default()
        },
    };
    a.on_trade(&tr(1, 90, 0));
    a.observe_line(1, 90);
    a.on_diff_applied(&d(2, 100));
    a.on_diff_applied(&d(3, 200));
    a.on_diff_applied(&d(4, 300));
    a.on_trade(&tr(3, 260, 0));
    assert_eq!(
        a.finalized_until(),
        0,
        "nada cierra: la línea B sigue en 90"
    );
    a.on_trade(&tr(2, 150, 1));
    a.observe_line(1, 260);
    assert_eq!(a.stats().late, 0);
    assert_eq!(a.finalized_until(), 200);
    let f = a.sink().flows.iter().find(|f| f.end_ts_ms == 200).unwrap();
    assert_eq!(f.executed, Qty::from_units(1));
    assert_eq!(a.unaccounted(), 0);
}

fn px(cents: i64) -> Px {
    Px::from_raw(cents * 1_000_000)
}

fn sides(levels: &[(Side, i64, i64)]) -> (Vec<Level>, Vec<Level>) {
    let mut bids = Vec::new();
    let mut asks = Vec::new();
    for &(s, c, q) in levels {
        let l = Level {
            px: px(c),
            qty: Qty::from_units(q),
        };
        match s {
            Side::Bid => bids.push(l),
            Side::Ask => asks.push(l),
        }
    }
    (bids, asks)
}

fn book_of(levels: &[(Side, i64, i64)], limit: usize) -> L2Book {
    let (bids, asks) = sides(levels);
    let mut b = L2Book::new();
    b.load_snapshot(&DepthSnapshot {
        last_update_id: 1,
        limit,
        bids,
        asks,
        exch_ts_ms: None,
        rolling: false,
        rx: RxStamp::default(),
    });
    b
}

fn flow(side: Side, cents: i64, q0: i64, q1: i64, exec: i64, end: u64, clean: bool) -> LevelFlow {
    LevelFlow {
        epoch: 1,
        side,
        px: px(cents),
        start_ts_ms: end.saturating_sub(100),
        end_ts_ms: end,
        q0: Qty::from_units(q0),
        q1: Qty::from_units(q1),
        executed: Qty::from_units(exec),
        exec_lo: Qty::from_units(exec),
        exec_hi: Qty::from_units(exec),
        exec_rpi: Qty::zero(),
        n_fills: u64::from(exec > 0),
        n_trades: u64::from(exec > 0),
        no_visible_min: Qty::zero(),
        cancelado_min: Qty::zero(),
        agregado_min: Qty::zero(),
        clean,
    }
}

fn batch(m: &mut Metrics, end: u64, flows: &[LevelFlow], clean: bool) {
    for f in flows {
        m.on_level_flow(f);
    }
    m.on_batch(&BatchInfo {
        epoch: 1,
        start_ts_ms: end.saturating_sub(100),
        end_ts_ms: end,
        levels_changed: flows.len() as u32,
        trades: 0,
        contaminated: (!clean).then_some(Contamination::EpochStart),
    });
}

const T0: u64 = TF_4H * 5000;

fn wall_setup(wall_bucket: i64, wall_qty: i64, second: Option<(i64, i64)>) -> Metrics {
    let mut lv = Vec::new();
    for b in 95..=99 {
        let mut q = 10;
        if b == wall_bucket {
            q = wall_qty;
        }
        if let Some((sb, sq)) = second {
            if b == sb {
                q = sq;
            }
        }
        lv.push((Side::Bid, b * 100 + 50, q));
    }
    for a in 101..=105 {
        lv.push((Side::Ask, a * 100 + 50, 10));
    }
    let mut m = Metrics::new(MetricsConfig::default());
    FlowSink::on_rebuild(&mut m, 1, &book_of(&lv, 5000));
    batch(&mut m, T0, &[], false);
    for k in 1..=36 {
        batch(&mut m, T0 + k * 100_000, &[], true);
    }
    m
}

fn drop_wall(m: &mut Metrics, bucket: i64, from: i64, to: i64, exec: i64, clean: bool) {
    let t = T0 + 3_700_000;
    batch(
        m,
        t,
        &[flow(Side::Bid, bucket * 100 + 50, from, to, exec, t, clean)],
        clean,
    );
}

#[test]
fn m2_dispara_muro_retirado() {
    let mut m = wall_setup(99, 1000, None);
    drop_wall(&mut m, 99, 1000, 100, 50, true);
    let s = *m.wall_stats();
    assert_eq!((s.evaluated, s.fired), (1, 1), "{s:?}");
    let w = m.walls()[0];
    assert_eq!(w.side, Side::Bid);
    assert_eq!(w.bucket, 99);
    assert_eq!(w.start_qty, Qty::from_units(1000));
    assert_eq!(w.qty, Qty::from_units(100));
    assert_eq!(w.executed, Qty::from_units(50));
    assert!(w.distance <= 2);
}

#[test]
fn m2_rechaza_si_ejecuciones_explican_la_caida() {
    let mut m = wall_setup(99, 1000, None);
    drop_wall(&mut m, 99, 1000, 100, 180, true);
    let s = m.wall_stats();
    assert_eq!((s.fired, s.rejected_exec), (0, 1));
}

#[test]
fn m2_rechaza_por_distancia() {
    let mut m = wall_setup(95, 1000, None);
    drop_wall(&mut m, 95, 1000, 100, 0, true);
    let s = m.wall_stats();
    assert_eq!((s.fired, s.rejected_distance), (0, 1));
}

#[test]
fn m2_rechaza_por_percentil() {
    let mut m = wall_setup(99, 500, Some((98, 1000)));
    drop_wall(&mut m, 99, 500, 50, 0, true);
    let s = m.wall_stats();
    assert_eq!((s.fired, s.rejected_percentile), (0, 1));
}

#[test]
fn m2_rechaza_ventana_contaminada() {
    let mut m = wall_setup(99, 1000, None);
    drop_wall(&mut m, 99, 1000, 100, 0, false);
    let s = m.wall_stats();
    assert_eq!((s.fired, s.rejected_contaminated), (0, 1));
}

#[test]
fn m2_sin_cruce_de_x_no_evalua() {
    let mut m = wall_setup(99, 1000, None);
    drop_wall(&mut m, 99, 1000, 600, 0, true);
    assert_eq!(m.wall_stats().evaluated, 0);
}

#[test]
fn m2_caida_gradual_acumula_ejecuciones_de_la_ventana() {
    let mut m = wall_setup(99, 1000, None);
    let p = 99 * 100 + 50;
    let t1 = T0 + 3_700_000;
    batch(
        &mut m,
        t1,
        &[flow(Side::Bid, p, 1000, 700, 100, t1, true)],
        true,
    );
    let t2 = t1 + 100;
    batch(
        &mut m,
        t2,
        &[flow(Side::Bid, p, 700, 300, 100, t2, true)],
        true,
    );
    let s = m.wall_stats();
    assert_eq!((s.evaluated, s.fired, s.rejected_exec), (1, 0, 1), "{s:?}");
}

fn tactical(ref_qty: i64, others: i64, now_qty: i64) -> CellView {
    let mut lv: Vec<(Side, i64, i64)> = (115..=119)
        .map(|b| (Side::Bid, b * 100 + 50, others))
        .collect();
    lv.push((Side::Bid, 12050, ref_qty));
    lv.push((Side::Ask, 12150, 10));
    let mut m = Metrics::new(MetricsConfig::default());
    FlowSink::on_rebuild(&mut m, 1, &book_of(&lv, 5000));
    batch(&mut m, T0, &[], false);
    batch(&mut m, T0 + 1_000, &[], true);
    let v = m.view(0);
    assert_eq!(v.current[0].ref_start_ms, None);
    assert!(v.current[0].cells.iter().all(|c| c.liquidity.is_none()));
    for k in 1..=144 {
        batch(&mut m, T0 + k * 100_000, &[], true);
    }
    let t = T0 + TF_4H;
    batch(
        &mut m,
        t,
        &[flow(Side::Bid, 12050, ref_qty, now_qty, 0, t, true)],
        true,
    );
    batch(&mut m, t + 300_000, &[], true);
    let v = m.view(0);
    let c = &v.current[0];
    assert_eq!(c.tf_ms, TF_15M);
    assert_eq!(
        c.ref_start_ms,
        Some(T0),
        "referencia = vela 4 h anterior cerrada (opción B)"
    );
    c.cells
        .iter()
        .find(|x| x.side == Side::Bid && x.bucket == 120)
        .cloned()
        .unwrap()
}

fn ratio(c: &CellView) -> Option<f64> {
    match c.twa_ref {
        Some(r) if r.is_positive() => Some(c.twa.raw() as f64 / r.raw() as f64),
        _ => None,
    }
}

#[test]
fn m3_estructural_2000_a_2100() {
    let c = tactical(2000, 10, 2100);
    assert_eq!(c.twa_ref, Some(Qty::from_units(2000)));
    assert!((ratio(&c).unwrap() - 1.05).abs() < 1e-9);
    assert_eq!(c.liquidity, Some(Liquidity::Estructural));
}

#[test]
fn m3_tactica_300_a_1500() {
    let c = tactical(300, 10, 1500);
    assert!((ratio(&c).unwrap() - 5.0).abs() < 1e-9);
    assert_eq!(c.liquidity, Some(Liquidity::Tactica));
}

#[test]
fn m3_desarmandose_2000_a_600() {
    let c = tactical(2000, 10, 600);
    assert!((ratio(&c).unwrap() - 0.3).abs() < 1e-9);
    assert_eq!(c.liquidity, Some(Liquidity::Desarmandose));
}

#[test]
fn m3_r_cercano_a_1_sin_tamano_relevante_es_estable() {
    let c = tactical(2000, 5000, 2100);
    assert_eq!(c.liquidity, Some(Liquidity::Estable));
}

#[test]
fn m3_sin_liquidez_en_la_referencia_es_tactica() {
    let c = tactical(0, 10, 1500);
    assert_eq!(ratio(&c), None);
    assert_eq!(c.liquidity, Some(Liquidity::Tactica));
}

fn view_of(levels: &[(Side, i64, i64)], limit: usize) -> MetricsView {
    let b = book_of(levels, limit);
    let mut m = Metrics::new(MetricsConfig::default());
    FlowSink::on_rebuild(&mut m, 1, &b);
    batch(&mut m, T0 + 5, &[], false);
    m.view(0)
}

#[test]
fn m4_cvd_del_libro_pares_simetricos() {
    let spot = view_of(
        &[
            (Side::Bid, 10050, 10),
            (Side::Bid, 9950, 20),
            (Side::Bid, 10120, 999),
            (Side::Ask, 10250, 5),
            (Side::Ask, 10350, 7),
        ],
        5000,
    );
    let perp = view_of(&[(Side::Bid, 10020, 3), (Side::Ask, 10270, 4)], 5000);
    let c = book_cvd(&spot, &perp, px(10130), Px::from_units(1), 5);
    assert_eq!(c.ref_bucket, 101);
    assert_eq!(c.levels.len(), 5);
    let l1 = c.levels[0];
    assert_eq!((l1.bid_bucket, l1.ask_bucket), (100, 102));
    assert_eq!(l1.delta, Qty::from_units(10 + 3 - 5 - 4));
    assert_eq!(c.levels[1].delta, Qty::from_units(20 - 7));
    assert_eq!(c.levels[1].cum, Qty::from_units(17));
    assert_eq!(c.levels[4].bid_bucket, 96);
    assert_eq!(c.levels[4].ask_bucket, 106);
    assert_eq!(c.total, Qty::from_units(17));
    assert!(c.complete);
}

#[test]
fn m4_cvd_marca_incompleto_fuera_de_cobertura() {
    let spot = view_of(
        &[
            (Side::Bid, 10050, 10),
            (Side::Bid, 9950, 20),
            (Side::Ask, 10250, 5),
        ],
        2,
    );
    let perp = view_of(&[(Side::Bid, 10020, 3), (Side::Ask, 10270, 4)], 5000);
    let c = book_cvd(&spot, &perp, px(10130), Px::from_units(1), 5);
    assert!(c.levels[0].complete, "100 está sobre el piso");
    assert!(!c.levels[1].complete, "99 contiene el piso de cobertura");
    assert!(!c.complete);
}

#[test]
fn the_delta_of_the_node_needs_both_kinds() {
    let spot = view_of(&[(Side::Bid, 10050, 10), (Side::Ask, 10250, 5)], 5000);
    let perp = view_of(&[(Side::Bid, 10020, 3), (Side::Ask, 10270, 4)], 5000);
    let market = |key: &'static str, live: bool, mid: Option<Px>, metrics| CvdMarket {
        key,
        live,
        mid,
        metrics,
    };
    let both = [
        market("spot", true, Some(px(10130)), &spot),
        market("perp", true, None, &perp),
    ];
    let c = compute(&both).unwrap();
    assert_eq!(c.markets, 2);
    assert_eq!(c.ref_px, px(10130));
    assert_eq!(c.total, Qty::from_units(10 + 3 - 5 - 4));
    assert_eq!(c.skew_ms, 0);
    let many = [
        market("binance.spot", true, None, &spot),
        market("okx.spot", true, Some(px(10130)), &spot),
        market("okx.perp", true, Some(px(1)), &perp),
    ];
    let c = compute(&many).unwrap();
    assert_eq!(c.markets, 3);
    assert_eq!(c.total, Qty::from_units(20 + 3 - 10 - 4));
    assert!(compute(&[market("spot", true, Some(px(10130)), &spot)]).is_none());
    assert!(compute(&[
        market("spot", false, Some(px(10130)), &spot),
        market("perp", true, None, &perp)
    ])
    .is_none());
    assert!(compute(&[
        market("spot", true, None, &spot),
        market("perp", true, None, &perp)
    ])
    .is_none());
}

// Time-weighted averages against brute force.

struct Seg {
    t: u64,
    live: bool,
    buckets: BTreeMap<(bool, i64), i64>,
}

fn integral(segs: &[Seg], key: (bool, i64), from: u64, to: u64) -> (i128, u64) {
    let mut area = 0i128;
    let mut obs = 0u64;
    for (i, s) in segs.iter().enumerate() {
        let end = segs.get(i + 1).map_or(u64::MAX, |n| n.t);
        let a = s.t.max(from);
        let b = end.min(to);
        if a < b && s.live {
            obs += b - a;
            area += i128::from(*s.buckets.get(&key).unwrap_or(&0)) * i128::from(b - a);
        }
    }
    (area, obs)
}

struct Gen(u64);

impl Gen {
    fn below(&mut self, n: u64) -> u64 {
        self.0 = self
            .0
            .wrapping_mul(6_364_136_223_846_793_005)
            .wrapping_add(1_442_695_040_888_963_407);
        (self.0 >> 33) % n
    }
}

fn cents(bid: bool, off: i64) -> i64 {
    if bid {
        9400 + off
    } else {
        10001 + off
    }
}

fn side(bid: bool) -> Side {
    if bid {
        Side::Bid
    } else {
        Side::Ask
    }
}

fn buckets_of(levels: &BTreeMap<(bool, i64), i64>) -> BTreeMap<(bool, i64), i64> {
    let mut m = BTreeMap::new();
    for (&(b, c), &q) in levels {
        *m.entry((b, c / 100)).or_insert(0) += q;
    }
    m
}

fn as_book(levels: &BTreeMap<(bool, i64), i64>) -> L2Book {
    let v: Vec<(Side, i64, i64)> = levels.iter().map(|(&(b, c), &q)| (side(b), c, q)).collect();
    book_of(&v, 5000)
}

#[test]
fn averages_match_the_integral() {
    for seed in 0..12 {
        let mut g = Gen(seed);
        let mut levels: BTreeMap<(bool, i64), i64> = BTreeMap::new();
        for _ in 0..8 {
            let b = g.below(2) == 1;
            levels.insert((b, cents(b, g.below(600) as i64)), 1 + g.below(49) as i64);
        }
        let mut m = Metrics::new(MetricsConfig::default());
        FlowSink::on_rebuild(&mut m, 1, &as_book(&levels));
        let mut t = T0 + 7;
        batch(&mut m, t, &[], false);
        let mut segs = vec![Seg {
            t,
            live: true,
            buckets: buckets_of(&levels),
        }];
        let mut executed: Vec<(u64, i64)> = Vec::new();
        for _ in 0..120 {
            let dt = match g.below(11) {
                0..=7 => 1 + g.below(5_000),
                8 | 9 => 5_000 + g.below(2_000_000),
                _ => 2_000_000 + g.below(18_000_000),
            };
            t += dt;
            if g.below(11) == 0 {
                FlowSink::on_invalidate(&mut m, 1, ResyncReason::GapTimeout);
                segs.push(Seg {
                    t: t - dt,
                    live: false,
                    buckets: BTreeMap::new(),
                });
                levels.clear();
                for _ in 0..g.below(8) {
                    let b = g.below(2) == 1;
                    levels.insert((b, cents(b, g.below(600) as i64)), 1 + g.below(49) as i64);
                }
                FlowSink::on_rebuild(&mut m, 2, &as_book(&levels));
                t += 1;
                batch(&mut m, t, &[], false);
            } else {
                let mut flows: BTreeMap<(bool, i64), LevelFlow> = BTreeMap::new();
                for _ in 0..g.below(6) {
                    let b = g.below(2) == 1;
                    let c = cents(b, g.below(600) as i64);
                    if flows.contains_key(&(b, c)) {
                        continue;
                    }
                    let q1 = g.below(50) as i64;
                    let x = g.below(5) as i64;
                    let q0 = levels.get(&(b, c)).copied().unwrap_or(0);
                    flows.insert((b, c), flow(side(b), c, q0, q1, x, t, true));
                    executed.push((t, x));
                    if q1 == 0 {
                        levels.remove(&(b, c));
                    } else {
                        levels.insert((b, c), q1);
                    }
                }
                let v: Vec<LevelFlow> = flows.values().copied().collect();
                batch(&mut m, t, &v, true);
            }
            segs.push(Seg {
                t,
                live: true,
                buckets: buckets_of(&levels),
            });
        }
        let v = m.view(10_000);
        for (ti, tf) in [TF_15M, TF_1H, TF_4H].into_iter().enumerate() {
            for c in &v.closed[ti] {
                assert_eq!(c.tf_ms, tf);
                for cell in &c.cells {
                    let key = (cell.side == Side::Bid, cell.bucket);
                    let (area, obs) = integral(&segs, key, c.start_ms, c.end_ms);
                    assert_eq!(c.observed_ms, obs);
                    let want = if obs > 0 {
                        (area * i128::from(SCALE) / i128::from(obs)) as i64
                    } else {
                        0
                    };
                    assert_eq!(cell.twa.raw(), want, "{key:?} of {}", c.start_ms);
                }
                let want: i64 = executed
                    .iter()
                    .filter(|e| e.0 >= c.start_ms && e.0 < c.end_ms)
                    .map(|e| e.1)
                    .sum();
                let got: i64 = c.cells.iter().map(|x| x.executed.raw()).sum();
                assert_eq!(got, Qty::from_units(want).raw());
            }
        }
    }
}

// The summary of flows of the node.

#[test]
fn only_clean_flows_are_added() {
    let mut a = FlowAgg::default();
    let mut f = flow(Side::Bid, 9950, 10, 4, 2, 100, true);
    f.cancelado_min = Qty::from_units(4);
    f.exec_rpi = Qty::from_units(1);
    a.on_level_flow(&f);
    let mut g = flow(Side::Ask, 10150, 10, 9, 3, 100, true);
    g.no_visible_min = Qty::from_units(2);
    a.on_level_flow(&g);
    let mut dirty = f;
    dirty.clean = false;
    a.on_level_flow(&dirty);
    let t = a.totals();
    assert_eq!(t.flows_clean, 2);
    assert_eq!(t.exec_bid, Qty::from_units(2));
    assert_eq!(t.exec_ask, Qty::from_units(3));
    assert_eq!(t.cancelado_min_bid, Qty::from_units(4));
    assert_eq!(t.cancelado_min_ask, Qty::zero());
    assert_eq!(t.no_visible_min_ask, Qty::from_units(2));
    assert_eq!(t.exec_rpi, Qty::from_units(1));
    assert_eq!(a.recent().len(), 2);
    for k in 0..60 {
        let mut x = f;
        x.end_ts_ms = k;
        a.on_level_flow(&x);
    }
    let r = a.recent();
    assert_eq!(r.len(), RECENT);
    assert_eq!(r[RECENT - 1].end_ts_ms, 59);
    assert_eq!(r[0].end_ts_ms, 10);
    assert!(a.last_batch().is_none());
}

#[test]
fn the_view_of_flows_starts_empty() {
    let blank = FlowView::default();
    assert_eq!(blank.unaccounted, 0);
    assert!(blank.recent.is_empty());
    let al = Aligner::new(
        AlignerConfig::default(),
        (FlowAgg::default(), Metrics::new(MetricsConfig::default())),
    );
    let v = flow_view(&al);
    assert_eq!(v.stats, blank.stats);
    assert_eq!(v.open_batches, 0);
    assert!(v.recent_walls.is_empty());
}

#[test]
fn candles_tile_the_time_and_count_what_was_executed() {
    let t0 = TF_4H * 1000;
    let mut m = Metrics::new(MetricsConfig::default());
    let book = book_of(&[(Side::Bid, 9950, 10), (Side::Ask, 10050, 10)], 5000);
    FlowSink::on_rebuild(&mut m, 1, &book);
    batch(&mut m, t0 + 7, &[], false);
    batch(&mut m, t0 + 100, &[flow(Side::Bid, 9950, 10, 8, 2, t0 + 100, true)], true);
    batch(
        &mut m,
        t0 + 200,
        &[
            flow(Side::Bid, 9950, 8, 5, 3, t0 + 200, true),
            flow(Side::Ask, 10050, 10, 9, 1, t0 + 200, true),
        ],
        true,
    );
    // Quiet for more than two candles; this batch ends in the fourth.
    let t3 = t0 + 3 * TF_15M + 5;
    batch(&mut m, t3, &[flow(Side::Bid, 9950, 5, 1, 4, t3, true)], true);
    let v = m.view(100);
    let closed = &v.closed[0];
    assert_eq!(closed.len(), 3);
    for (i, c) in closed.iter().enumerate() {
        assert_eq!(c.start_ms, t0 + i as u64 * TF_15M);
        assert_eq!(c.end_ms, c.start_ms + TF_15M);
    }
    assert_eq!(v.current[0].start_ms, t0 + 3 * TF_15M);
    let sum = |c: &libro_unificado::footprint::CandleView| {
        c.cells.iter().map(|x| x.executed.raw()).sum::<i64>()
    };
    assert_eq!(sum(&closed[0]), 6 * SCALE);
    assert_eq!(sum(&closed[1]), 0);
    assert_eq!(sum(&closed[2]), 0);
    assert_eq!(sum(&v.current[0]), 4 * SCALE);
    assert_eq!(sum(&v.current[2]), 10 * SCALE);
    let bid = closed[0].cells.iter().find(|c| c.side == Side::Bid && c.bucket == 99);
    assert_eq!(bid.unwrap().executed, Qty::from_units(5));
}

#[test]
fn a_loss_discards_what_is_open() {
    let mut a = Aligner::new(AlignerConfig::default(), Collect::default());
    let book = one_level_book();
    a.on_rebuild(1, &book);
    a.on_diff_applied(&empty_diff(2, 100, None));
    a.on_diff_applied(&empty_diff(3, 200, None));
    let open = a.stats().batches_contaminated;
    a.on_invalidate(1, ResyncReason::GapTimeout);
    assert_eq!(a.stats().batches_contaminated, open + 2);
    assert!(a.sink().batches.is_empty());
    a.on_rebuild(2, &book);
    for (id, ts) in [(9, 500), (10, 600), (11, 5_000)] {
        a.on_diff_applied(&empty_diff(id, ts, None));
    }
    let b = &a.sink().batches;
    assert_eq!(b[0].epoch, 2);
    assert_eq!(b[0].contaminated, Some(Contamination::EpochStart));
    assert_eq!(b[1].contaminated, None);
    assert_eq!(a.unaccounted(), 0);
}

#[test]
fn a_contaminated_batch_claims_nothing() {
    let mut a = Aligner::new(AlignerConfig::default(), Collect::default());
    a.on_rebuild(1, &one_level_book());
    a.on_level(
        Side::Bid,
        Px::from_units(99),
        Qty::from_units(10),
        Qty::from_units(25),
        100,
    );
    a.on_diff_applied(&empty_diff(2, 100, None));
    a.on_level(
        Side::Bid,
        Px::from_units(99),
        Qty::from_units(25),
        Qty::from_units(40),
        200,
    );
    a.on_diff_applied(&empty_diff(3, 200, None));
    a.on_diff_applied(&empty_diff(4, 1_000, None));
    a.on_diff_applied(&empty_diff(5, 2_000, None));
    let flows = &a.sink().flows;
    let first = flows.iter().find(|f| f.end_ts_ms == 100).unwrap();
    assert!(!first.clean);
    assert_eq!((first.q0, first.q1), (Qty::from_units(10), Qty::from_units(25)));
    assert_eq!(first.agregado_min, Qty::zero());
    assert_eq!(first.cancelado_min, Qty::zero());
    assert_eq!(first.no_visible_min, Qty::zero());
    let second = flows.iter().find(|f| f.end_ts_ms == 200).unwrap();
    assert!(second.clean);
    assert_eq!(second.agregado_min, Qty::from_units(15));
}

#[test]
fn batches_are_told_in_order_up_to_what_is_final() {
    let mut a = Aligner::new(AlignerConfig::default(), Collect::default());
    assert_eq!(a.finalized_until(), 0);
    a.on_rebuild(1, &one_level_book());
    for (id, ts) in [(2, 100), (3, 150), (4, 400), (5, 900), (6, 2_000)] {
        a.on_diff_applied(&empty_diff(id, ts, None));
        let told = &a.sink().batches;
        let end = told.last().map_or(0, |b| b.end_ts_ms);
        assert_eq!(a.finalized_until(), end);
        assert!(told.first().map_or(true, |b| b.start_ts_ms == 0));
        assert!(told.windows(2).all(|w| w[0].end_ts_ms == w[1].start_ts_ms));
    }
    assert_eq!(a.finalized_until(), 900);
    a.on_invalidate(1, ResyncReason::Manual);
    assert_eq!(a.finalized_until(), 900);
    a.on_rebuild(2, &one_level_book());
    assert_eq!(a.finalized_until(), 0);
}

#[test]
fn a_window_is_evaluated_once() {
    let mut m = wall_setup(99, 1000, None);
    let p = 99 * 100 + 50;
    drop_wall(&mut m, 99, 1000, 100, 50, true);
    assert_eq!((m.wall_stats().evaluated, m.wall_stats().fired), (1, 1));
    let t1 = T0 + 3_700_100;
    batch(&mut m, t1, &[flow(Side::Bid, p, 100, 50, 0, t1, true)], true);
    assert_eq!((m.wall_stats().evaluated, m.wall_stats().fired), (1, 1));
    let t2 = t1 + 100;
    batch(&mut m, t2, &[flow(Side::Bid, p, 50, 2000, 0, t2, true)], true);
    let t3 = t2 + 100;
    batch(&mut m, t3, &[flow(Side::Bid, p, 2000, 40, 0, t3, true)], true);
    assert_eq!((m.wall_stats().evaluated, m.wall_stats().fired), (2, 2));
}

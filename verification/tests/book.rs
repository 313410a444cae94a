//! The book, the rules of sequence and the machine of synchronisation.

use libro_unificado::book::{BookState, L2Book};
use libro_unificado::event::{DepthDiff, DepthSnapshot, Level, RxStamp, Side};
use libro_unificado::fixed::{Px, Qty};
use libro_unificado::observer::BookObserver;
use libro_unificado::rule::{BinanceFuturesRule, BinanceSpotRule, Class, OkxRule, SeqRule};
use libro_unificado::sync::{Phase, ResyncReason, SyncBook, SyncConfig};
use std::collections::{BTreeMap, HashMap};

fn lvs(p: &str, q: &str) -> Level {
    Level {
        px: Px::parse(p).unwrap(),
        qty: Qty::parse(q).unwrap(),
    }
}

#[test]
fn set_devuelve_previo_y_elimina_con_cero() {
    let mut b = L2Book::new();
    let p = Px::parse("100").unwrap();
    assert_eq!(b.set(Side::Bid, p, Qty::parse("2").unwrap()), Qty::zero());
    assert_eq!(
        b.set(Side::Bid, p, Qty::parse("3").unwrap()),
        Qty::parse("2").unwrap()
    );
    assert_eq!(b.set(Side::Bid, p, Qty::zero()), Qty::parse("3").unwrap());
    assert_eq!(b.set(Side::Bid, p, Qty::zero()), Qty::zero());
    assert_eq!(b.depth_len(), (0, 0));
}

#[test]
fn cobertura_solo_si_snapshot_truncado() {
    let s = DepthSnapshot {
        last_update_id: 1,
        limit: 2,
        bids: vec![lvs("100", "1"), lvs("99", "1")],
        asks: vec![lvs("101", "1")],
        exch_ts_ms: None,
        rolling: false,
        rx: RxStamp::default(),
    };
    let mut b = L2Book::new();
    b.load_snapshot(&s);
    assert_eq!(b.coverage().bid_floor, Some(Px::parse("99").unwrap()));
    assert_eq!(b.coverage().ask_ceiling, None);
    assert!(!b.is_covered(Side::Bid, Px::parse("98").unwrap()));
    assert!(b.is_covered(Side::Ask, Px::parse("500").unwrap()));
    assert_eq!(b.best_bid().unwrap().0, Px::parse("100").unwrap());
    assert_eq!(b.best_ask().unwrap().0, Px::parse("101").unwrap());
    assert!(!b.is_crossed());
}

#[test]
fn a_rolling_book_covers_what_is_present() {
    let s = DepthSnapshot {
        last_update_id: 1,
        limit: 0,
        bids: vec![lvs("100", "1"), lvs("99", "1")],
        asks: vec![lvs("101", "1"), lvs("103", "1")],
        exch_ts_ms: None,
        rolling: true,
        rx: RxStamp::default(),
    };
    let mut b = L2Book::new();
    b.load_snapshot(&s);
    assert_eq!(b.coverage().bid_floor, Some(Px::parse("99").unwrap()));
    assert_eq!(b.coverage().ask_ceiling, Some(Px::parse("103").unwrap()));
    b.set(Side::Ask, Px::parse("105").unwrap(), Qty::from_units(1));
    assert_eq!(b.coverage().ask_ceiling, Some(Px::parse("105").unwrap()));
    let best: Vec<Px> = b.bids_desc().into_iter().map(|x| x.0).collect();
    assert_eq!(
        best,
        vec![Px::parse("100").unwrap(), Px::parse("99").unwrap()]
    );
    assert_eq!(b.asks_asc().len(), 3);
}

#[test]
fn spot_puente_y_cadena() {
    let r = BinanceSpotRule;
    assert_eq!(r.bridge(90, 100, None, 100), Class::Stale);
    assert_eq!(r.bridge(95, 105, None, 100), Class::Next);
    assert_eq!(r.bridge(101, 105, None, 100), Class::Next);
    assert_eq!(r.bridge(102, 105, None, 100), Class::Ahead);
    assert_eq!(r.chain(101, 105, None, 105), Class::Stale);
    assert_eq!(r.chain(106, 110, None, 105), Class::Next);
    assert_eq!(r.chain(107, 110, None, 105), Class::Ahead);
    assert!(r.snapshot_too_old(102, 100));
    assert!(!r.snapshot_too_old(101, 100));
}

#[test]
fn futuros_puente_y_cadena() {
    let r = BinanceFuturesRule;
    assert_eq!(r.bridge(80, 99, Some(70), 100), Class::Stale);
    assert_eq!(r.bridge(95, 100, Some(90), 100), Class::Next);
    assert_eq!(r.bridge(95, 120, Some(90), 100), Class::Next);
    assert_eq!(r.bridge(101, 120, Some(99), 100), Class::Ahead);
    assert_eq!(r.chain(95, 120, Some(90), 120), Class::Stale);
    assert_eq!(r.chain(125, 130, Some(120), 120), Class::Next);
    assert_eq!(r.chain(135, 140, Some(130), 120), Class::Ahead);
    assert_eq!(r.chain(110, 140, Some(110), 120), Class::Invalid);
    assert_eq!(r.chain(125, 130, None, 120), Class::Invalid);
    assert!(r.snapshot_too_old(101, 100));
    assert!(!r.snapshot_too_old(100, 100));
}

#[test]
fn okx_puente_y_cadena() {
    let r = OkxRule;
    assert_eq!(r.bridge(250, 283, Some(249), 283), Class::Stale);
    assert_eq!(r.bridge(284, 315, Some(283), 283), Class::Next);
    assert_eq!(r.bridge(316, 328, Some(315), 283), Class::Ahead);
    assert_eq!(r.bridge(270, 300, Some(269), 283), Class::Invalid);
    assert_eq!(r.chain(316, 328, Some(315), 315), Class::Next);
    assert_eq!(r.chain(316, 315, Some(315), 315), Class::Stale);
    assert_eq!(r.chain(284, 315, Some(283), 315), Class::Stale);
    assert_eq!(r.chain(329, 340, Some(328), 315), Class::Ahead);
    assert_eq!(r.chain(301, 320, Some(300), 315), Class::Invalid);
    assert_eq!(r.chain(11, 10, Some(500), 315), Class::Invalid);
    assert!(r.snapshot_too_old(316, 283 + 20));
    assert!(!r.snapshot_too_old(284, 283));
    assert!(r.snapshot_too_old(316, 283));
}

fn lv(p: i64, q: i64) -> Level {
    Level {
        px: Px::from_units(p),
        qty: Qty::from_units(q),
    }
}

fn diff(
    first: u64,
    last: u64,
    pu: Option<u64>,
    bids: &[(i64, i64)],
    asks: &[(i64, i64)],
    line: u8,
) -> DepthDiff {
    DepthDiff {
        first_id: first,
        last_id: last,
        prev_last_id: pu,
        exch_ts_ms: last,
        match_ts_ms: None,
        bids: bids.iter().map(|&(p, q)| lv(p, q)).collect(),
        asks: asks.iter().map(|&(p, q)| lv(p, q)).collect(),
        rx: RxStamp {
            line,
            ..RxStamp::default()
        },
    }
}

fn snap(id: u64, bids: &[(i64, i64)], asks: &[(i64, i64)]) -> DepthSnapshot {
    DepthSnapshot {
        last_update_id: id,
        limit: 1000,
        bids: bids.iter().map(|&(p, q)| lv(p, q)).collect(),
        asks: asks.iter().map(|&(p, q)| lv(p, q)).collect(),
        exch_ts_ms: None,
        rolling: false,
        rx: RxStamp::default(),
    }
}

fn spot() -> SyncBook<BinanceSpotRule> {
    SyncBook::new(BinanceSpotRule, SyncConfig::default(), ())
}

#[test]
fn spot_flujo_nominal() {
    let mut s = spot();
    let st = s.on_diff(diff(101, 103, None, &[(99, 5)], &[], 0), 0);
    assert!(st.need_snapshot);
    s.on_diff(diff(104, 106, None, &[], &[(101, 7)], 0), 10);
    let st = s.on_snapshot(snap(102, &[(99, 1), (98, 1)], &[(101, 1)]), 20);
    assert!(st.went_live);
    assert_eq!(st.applied, 2);
    assert_eq!(s.phase(), Phase::Live);
    assert_eq!(s.last_update_id(), 106);
    assert_eq!(
        s.book().qty_at(Side::Bid, Px::from_units(99)),
        Qty::from_units(5)
    );
    assert_eq!(
        s.book().qty_at(Side::Ask, Px::from_units(101)),
        Qty::from_units(7)
    );
}

#[test]
fn futuros_puente_con_u_igual_a_snapshot() {
    let mut s: SyncBook<BinanceFuturesRule> =
        SyncBook::new(BinanceFuturesRule, SyncConfig::default(), ());
    s.on_diff(diff(90, 100, Some(80), &[(99, 2)], &[], 0), 0);
    s.on_diff(diff(107, 115, Some(100), &[(99, 3)], &[], 0), 5);
    let st = s.on_snapshot(snap(100, &[(99, 2)], &[(101, 1)]), 10);
    assert!(st.went_live);
    assert_eq!(s.last_update_id(), 115);
    assert_eq!(
        s.book().qty_at(Side::Bid, Px::from_units(99)),
        Qty::from_units(3)
    );
}

#[test]
fn arbitraje_ab_descarta_duplicados_sin_resync() {
    let mut s = spot();
    s.on_diff(diff(101, 101, None, &[], &[], 0), 0);
    s.on_snapshot(snap(100, &[(99, 1)], &[(101, 1)]), 1);
    assert_eq!(s.phase(), Phase::Live);
    s.on_diff(diff(101, 101, None, &[], &[], 1), 2);
    s.on_diff(diff(102, 102, None, &[(99, 4)], &[], 1), 3);
    s.on_diff(diff(102, 102, None, &[(99, 4)], &[], 0), 4);
    assert_eq!(s.stats().stale, 2);
    assert_eq!(s.stats().applied_by_line[1], 1);
    assert_eq!(s.stats().resyncs(), 0);
}

#[test]
fn hueco_llenado_por_la_otra_linea_dentro_de_ventana() {
    let mut s = spot();
    s.on_diff(diff(101, 101, None, &[], &[], 0), 0);
    s.on_snapshot(snap(100, &[(99, 1)], &[(101, 1)]), 1);
    s.on_diff(diff(103, 103, None, &[(99, 9)], &[], 0), 10);
    assert_eq!(s.pending_len(), 1);
    s.on_tick(500);
    assert_eq!(s.phase(), Phase::Live);
    s.on_diff(diff(102, 102, None, &[(98, 2)], &[], 1), 600);
    assert_eq!(s.pending_len(), 0);
    assert_eq!(s.last_update_id(), 103);
    assert_eq!(s.stats().reordered_applied, 1);
    assert_eq!(s.stats().resyncs(), 0);
}

#[test]
fn hueco_real_resync_y_recuperacion() {
    let mut s = spot();
    s.on_diff(diff(101, 101, None, &[], &[], 0), 0);
    s.on_snapshot(snap(100, &[(99, 1)], &[(101, 1)]), 1);
    s.on_diff(diff(103, 103, None, &[(99, 9)], &[], 0), 10);
    let st = s.on_tick(10 + SyncConfig::default().gap_timeout_ms);
    assert_eq!(st.resync, Some(ResyncReason::GapTimeout));
    assert!(st.need_snapshot);
    assert_eq!(s.phase(), Phase::Syncing);
    let st = s.on_snapshot(snap(102, &[(99, 1)], &[(101, 1)]), 900);
    assert!(st.went_live);
    assert_eq!(s.last_update_id(), 103);
    assert_eq!(s.epoch(), 2);
}

#[test]
fn snapshot_viejo_se_vuelve_a_pedir() {
    let mut s = spot();
    s.on_diff(diff(200, 201, None, &[], &[], 0), 0);
    let st = s.on_snapshot(snap(150, &[(99, 1)], &[(101, 1)]), 5);
    assert!(st.need_snapshot);
    assert_eq!(s.stats().snapshots_unbridgeable, 1);
    assert_eq!(s.phase(), Phase::Syncing);
}

#[test]
fn snapshot_antes_que_cualquier_diff_se_retiene() {
    let mut s = spot();
    s.on_snapshot(snap(100, &[(99, 1)], &[(101, 1)]), 0);
    assert_eq!(s.phase(), Phase::Syncing);
    let st = s.on_diff(diff(101, 102, None, &[], &[], 0), 1);
    assert!(st.went_live);
}

#[test]
fn libro_cruzado_provoca_resync() {
    let mut s = spot();
    s.on_diff(diff(101, 101, None, &[], &[], 0), 0);
    s.on_snapshot(snap(100, &[(99, 1)], &[(101, 1)]), 1);
    let st = s.on_diff(diff(102, 102, None, &[(101, 1)], &[], 0), 2);
    assert_eq!(st.resync, Some(ResyncReason::Crossed));
    assert_eq!(s.phase(), Phase::Syncing);
}

#[test]
fn futuros_pu_inconsistente_es_invalido() {
    let mut s: SyncBook<BinanceFuturesRule> =
        SyncBook::new(BinanceFuturesRule, SyncConfig::default(), ());
    s.on_diff(diff(95, 105, Some(90), &[], &[], 0), 0);
    s.on_snapshot(snap(100, &[(99, 1)], &[(101, 1)]), 1);
    assert_eq!(s.phase(), Phase::Live);
    let st = s.on_diff(diff(100, 120, Some(100), &[], &[], 0), 2);
    assert_eq!(st.resync, Some(ResyncReason::InvalidSequence));
}

#[test]
fn retry_de_snapshot_por_timeout() {
    let mut s = spot();
    let st = s.on_diff(diff(1, 1, None, &[], &[], 0), 0);
    assert!(st.need_snapshot);
    assert!(!s.on_tick(5_000).need_snapshot);
    assert!(s.on_tick(10_000).need_snapshot);
}

#[test]
fn a_manual_resync_is_counted() {
    let mut s = spot();
    s.on_diff(diff(101, 101, None, &[], &[], 0), 0);
    s.on_snapshot(snap(100, &[(99, 1)], &[(101, 1)]), 1);
    let st = s.force_resync(2);
    assert_eq!(st.resync, Some(ResyncReason::Manual));
    assert!(st.need_snapshot);
    assert_eq!(s.stats().resync_manual, 1);
    assert_eq!(ResyncReason::Manual.as_str(), "manual");
    assert_eq!(s.unaccounted(), 0);
}

#[test]
fn too_many_held_diffs_resync() {
    let mut s = spot();
    s.on_diff(diff(101, 101, None, &[], &[], 0), 0);
    s.on_snapshot(snap(100, &[(99, 1)], &[(101, 1)]), 1);
    let max = SyncConfig::default().max_pending as u64;
    let mut last = None;
    for k in 0..=max {
        last = s.on_diff(diff(110 + k, 110 + k, None, &[], &[], 0), 2).resync;
        assert_eq!(s.unaccounted(), 0);
        if last.is_some() {
            break;
        }
    }
    assert_eq!(last, Some(ResyncReason::PendingOverflow));
}

#[test]
fn a_full_buffer_drops_the_oldest_and_still_bridges() {
    let cfg = SyncConfig {
        max_buffer: 3,
        ..SyncConfig::default()
    };
    let mut s: SyncBook<BinanceSpotRule> = SyncBook::new(BinanceSpotRule, cfg, ());
    for k in 101..=106 {
        s.on_diff(diff(k, k, None, &[(90, k as i64)], &[], 0), k);
    }
    assert_eq!(s.stats().buffer_dropped, 3);
    assert!(!s.on_snapshot(snap(101, &[(90, 101)], &[(110, 1)]), 200).went_live);
    assert!(s.on_snapshot(snap(104, &[(90, 104)], &[(110, 1)]), 300).went_live);
    assert_eq!(s.last_update_id(), 106);
    assert_eq!(
        s.book().qty_at(Side::Bid, Px::from_units(90)),
        Qty::from_units(106)
    );
    assert_eq!(s.stats().resyncs(), 0);
    assert_eq!(s.unaccounted(), 0);
}

// A simulated exchange with two lines that lose and delay what they carry.

#[derive(Clone, Copy, Debug, PartialEq, Eq)]
enum Kind {
    Spot,
    Futures,
}

#[derive(Clone, Debug)]
struct EvSpec {
    changes: Vec<(bool, u8, u8)>,
    extra: u8,
    skip: u8,
    on_a: bool,
    on_b: bool,
    delay_a: u16,
    delay_b: u16,
}

type Sides = (BTreeMap<i64, i64>, BTreeMap<i64, i64>);

fn level(bid: bool, off: u8, q: u8) -> (bool, Level) {
    let base = if bid { 900 } else { 1000 };
    (
        bid,
        Level {
            px: Px::from_units(base + i64::from(off)),
            qty: Qty::from_units(i64::from(q)),
        },
    )
}

fn apply_truth(state: &mut Sides, bid: bool, l: Level) {
    let m = if bid { &mut state.0 } else { &mut state.1 };
    if l.qty.is_zero() {
        m.remove(&l.px.raw());
    } else {
        m.insert(l.px.raw(), l.qty.raw());
    }
}

struct World {
    states: Vec<Sides>,
    diffs: Vec<DepthDiff>,
    ids: Vec<u64>,
    id_to_k: HashMap<u64, usize>,
}

fn build(kind: Kind, init: &[(bool, u8, u8)], evs: &[EvSpec]) -> World {
    let mut s0: Sides = (BTreeMap::new(), BTreeMap::new());
    for &(b, o, q) in init {
        let (b, l) = level(b, o, q);
        apply_truth(&mut s0, b, l);
    }
    let mut states = vec![s0];
    let mut ids = vec![1000u64];
    let mut diffs = Vec::with_capacity(evs.len());
    let mut id_to_k = HashMap::new();
    id_to_k.insert(1000u64, 0usize);
    for (i, e) in evs.iter().enumerate() {
        let prev_u = ids[i];
        let (first, pu) = match kind {
            Kind::Spot => (prev_u + 1, None),
            Kind::Futures => (prev_u + 1 + u64::from(e.skip), Some(prev_u)),
        };
        let last = first + u64::from(e.extra);
        let mut st = states[i].clone();
        let mut bids = Vec::new();
        let mut asks = Vec::new();
        for &(b, o, q) in &e.changes {
            let (b, l) = level(b, o, q);
            apply_truth(&mut st, b, l);
            if b {
                bids.push(l);
            } else {
                asks.push(l);
            }
        }
        diffs.push(DepthDiff {
            first_id: first,
            last_id: last,
            prev_last_id: pu,
            exch_ts_ms: last,
            match_ts_ms: None,
            bids,
            asks,
            rx: RxStamp::default(),
        });
        states.push(st);
        ids.push(last);
        id_to_k.insert(last, i + 1);
    }
    World {
        states,
        diffs,
        ids,
        id_to_k,
    }
}

fn snapshot_of(w: &World, j: usize) -> DepthSnapshot {
    let (b, a) = &w.states[j];
    let of = |m: &BTreeMap<i64, i64>| {
        m.iter()
            .map(|(p, q)| Level {
                px: Px::from_raw(*p),
                qty: Qty::from_raw(*q),
            })
            .collect()
    };
    DepthSnapshot {
        last_update_id: w.ids[j],
        limit: 10_000,
        bids: of(b),
        asks: of(a),
        exch_ts_ms: None,
        rolling: false,
        rx: RxStamp::default(),
    }
}

fn clamp_snap(kind: Kind, j: usize, n: usize) -> usize {
    match kind {
        Kind::Spot => j.min(n - 1),
        Kind::Futures => j.clamp(1, n),
    }
}

enum Arr {
    Diff(usize, u8),
    Snap(usize),
}

struct Outcome {
    phase: Phase,
    last: u64,
    resyncs: u64,
    final_ok: bool,
}

fn sides_of<R: SeqRule>(book: &SyncBook<R>) -> Sides {
    let b = book
        .book()
        .bids_desc()
        .into_iter()
        .map(|(p, q)| (p.raw(), q.raw()))
        .collect();
    let a = book
        .book()
        .asks_asc()
        .into_iter()
        .map(|(p, q)| (p.raw(), q.raw()))
        .collect();
    (b, a)
}

fn check_invariant<R: SeqRule>(book: &SyncBook<R>, w: &World) {
    assert_eq!(book.unaccounted(), 0, "conservation is broken");
    if book.phase() == Phase::Live {
        let last = book.last_update_id();
        let k = *w.id_to_k.get(&last).expect("an id of some event");
        assert!(sides_of(book) == w.states[k], "the book differs at {last}");
    }
}

fn simulate<R: SeqRule>(
    rule: R,
    kind: Kind,
    w: &World,
    specs: &[EvSpec],
    snap_j: usize,
    snap_t: u64,
    gap: Option<usize>,
) -> Outcome {
    let n = w.diffs.len();
    let mut arrivals: Vec<(u64, u64, Arr)> = Vec::new();
    let mut seq = 0u64;
    let mut first_seen = vec![u64::MAX; n + 1];
    for k in 1..=n {
        let s = &specs[k - 1];
        let (mut a, mut b) = (s.on_a, s.on_b);
        if gap == Some(k) {
            a = false;
            b = false;
        } else if !a && !b {
            a = true;
        }
        let base = k as u64 * 100;
        if a {
            let t = base + u64::from(s.delay_a);
            arrivals.push((t, seq, Arr::Diff(k, 0)));
            first_seen[k] = first_seen[k].min(t);
            seq += 1;
        }
        if b {
            let t = base + u64::from(s.delay_b);
            arrivals.push((t, seq, Arr::Diff(k, 1)));
            first_seen[k] = first_seen[k].min(t);
            seq += 1;
        }
    }
    arrivals.push((snap_t, seq, Arr::Snap(clamp_snap(kind, snap_j, n))));
    seq += 1;

    let cfg = SyncConfig::default();
    let mut book: SyncBook<R> = SyncBook::new(rule, cfg, ());
    let horizon = arrivals.iter().map(|a| a.0).max().unwrap_or(0) + 4 * cfg.gap_timeout_ms;
    let mut planned_in_flight = true;
    let mut t = 0u64;
    let mut iters = 0u32;
    let published_at = |t: u64| (1..=n).filter(|&k| first_seen[k] <= t).max().unwrap_or(0);

    loop {
        iters += 1;
        assert!(iters < 500_000, "the simulation does not end");
        arrivals.sort_by_key(|a| (a.0, a.1));
        let step = match arrivals.first().map(|a| a.0) {
            Some(at) if at <= t => {
                let (_, _, arr) = arrivals.remove(0);
                match arr {
                    Arr::Diff(k, line) => {
                        let mut d = w.diffs[k - 1].clone();
                        d.rx.line = line;
                        book.on_diff(d, t)
                    }
                    Arr::Snap(j) => {
                        planned_in_flight = false;
                        book.on_snapshot(snapshot_of(w, j), t)
                    }
                }
            }
            Some(at) => {
                let st = book.on_tick(t);
                t = (t + 50).min(at);
                st
            }
            None => {
                if t > horizon {
                    break;
                }
                let st = book.on_tick(t);
                t += 50;
                st
            }
        };
        if step.need_snapshot && !planned_in_flight {
            arrivals.push((t + 50, seq, Arr::Snap(clamp_snap(kind, published_at(t), n))));
            seq += 1;
        }
        check_invariant(&book, w);
    }

    let final_ok = book.phase() == Phase::Live
        && book.last_update_id() == w.ids[n]
        && sides_of(&book) == w.states[n];
    Outcome {
        phase: book.phase(),
        last: book.last_update_id(),
        resyncs: book.stats().resyncs(),
        final_ok,
    }
}

fn run_case(
    kind: Kind,
    init: &[(bool, u8, u8)],
    specs: &[EvSpec],
    snap_j: usize,
    snap_t: u64,
    gap: Option<usize>,
) -> Outcome {
    let w = build(kind, init, specs);
    match kind {
        Kind::Spot => simulate(BinanceSpotRule, kind, &w, specs, snap_j, snap_t, gap),
        Kind::Futures => simulate(BinanceFuturesRule, kind, &w, specs, snap_j, snap_t, gap),
    }
}

struct Gen(u64);

impl Gen {
    fn below(&mut self, n: u64) -> u64 {
        self.0 = self
            .0
            .wrapping_mul(6_364_136_223_846_793_005)
            .wrapping_add(1_442_695_040_888_963_407);
        (self.0 >> 33) % n
    }
    fn flip(&mut self) -> bool {
        self.below(2) == 1
    }
    fn specs(&mut self, least: u64) -> Vec<EvSpec> {
        let n = least + self.below(50);
        (0..n)
            .map(|_| {
                let c = self.below(5);
                EvSpec {
                    changes: (0..c)
                        .map(|_| (self.flip(), self.below(40) as u8, self.below(6) as u8))
                        .collect(),
                    extra: self.below(3) as u8,
                    skip: self.below(4) as u8,
                    on_a: self.flip(),
                    on_b: self.flip(),
                    delay_a: self.below(300) as u16,
                    delay_b: self.below(300) as u16,
                }
            })
            .collect()
    }
    fn init(&mut self) -> Vec<(bool, u8, u8)> {
        let n = self.below(30);
        (0..n)
            .map(|_| (self.flip(), self.below(40) as u8, 1 + self.below(5) as u8))
            .collect()
    }
}

#[test]
fn losses_on_one_line_never_resync() {
    let mut g = Gen(1);
    for _ in 0..150 {
        let kind = if g.flip() { Kind::Futures } else { Kind::Spot };
        let init = g.init();
        let specs = g.specs(2);
        let n = specs.len() as u64;
        let (j, t) = (g.below(n) as usize, 50 + g.below(750));
        let out = run_case(kind, &init, &specs, j, t, None);
        assert!(out.final_ok, "phase {:?}, last {}", out.phase, out.last);
        assert_eq!(out.resyncs, 0);
    }
}

#[test]
fn a_live_book_is_never_silently_wrong() {
    let mut g = Gen(2);
    for _ in 0..150 {
        let kind = if g.flip() { Kind::Futures } else { Kind::Spot };
        let init = g.init();
        let specs = g.specs(3);
        let n = specs.len() as u64;
        let (j, t, gap) = (
            g.below(n) as usize,
            50 + g.below(750),
            1 + g.below(n) as usize,
        );
        let _ = run_case(kind, &init, &specs, j, t, Some(gap));
    }
}

#[test]
fn canario_hueco_real_resync_y_recuperacion() {
    for kind in [Kind::Spot, Kind::Futures] {
        let specs: Vec<EvSpec> = (0..10)
            .map(|i| EvSpec {
                changes: vec![(i % 2 == 0, (i * 3) as u8, (i % 5 + 1) as u8)],
                extra: 1,
                skip: 2,
                on_a: true,
                on_b: false,
                delay_a: 0,
                delay_b: 0,
            })
            .collect();
        let out = run_case(kind, &[(true, 1, 3), (false, 2, 4)], &specs, 0, 50, Some(5));
        assert!(
            out.final_ok,
            "{kind:?}: no se recuperó (fase {:?}, last {})",
            out.phase, out.last
        );
        assert_eq!(
            out.resyncs, 1,
            "{kind:?}: se esperaba exactamente un resync"
        );
    }
}

#[derive(Default)]
struct Rebuilds(Vec<(u64, Option<(Px, Qty)>)>);

impl BookObserver for Rebuilds {
    type State = ();

    fn state(&self) {}

    fn level_next(_: (), _: Side, _: Px, _: Qty, _: Qty, _: u64) {}

    fn diff_next(_: (), _: DepthDiff) {}

    fn rebuild_next(_: (), _: u64, _: BookState) {}

    fn invalidate_next(_: (), _: u64, _: ResyncReason) {}

    fn on_level(&mut self, _: Side, _: Px, _: Qty, _: Qty, _: u64) {}

    fn on_diff_applied(&mut self, _: &DepthDiff) {}

    fn on_rebuild(&mut self, epoch: u64, book: &L2Book) {
        self.0.push((epoch, book.best_bid()));
    }

    fn on_invalidate(&mut self, _: u64, _: ResyncReason) {}
}

#[test]
fn each_rebuild_is_told_once() {
    let mut s = SyncBook::new(BinanceSpotRule, SyncConfig::default(), Rebuilds::default());
    assert!(!s.on_diff(diff(101, 101, None, &[(99, 7)], &[], 0), 0).went_live);
    assert_eq!((s.epoch(), s.observer().0.len()), (0, 0));
    assert!(s.on_snapshot(snap(100, &[(99, 1)], &[(101, 1)]), 1).went_live);
    assert_eq!(s.epoch(), 1);
    assert!(!s.on_diff(diff(102, 102, None, &[], &[], 0), 2).went_live);
    assert!(!s.force_resync(3).went_live);
    assert!(!s.on_tick(4).went_live);
    assert_eq!(s.epoch(), 1);
    s.on_diff(diff(103, 103, None, &[], &[], 0), 5);
    assert!(s.on_snapshot(snap(102, &[(98, 4)], &[(101, 1)]), 6).went_live);
    assert_eq!(s.epoch(), 2);
    let best = |p: i64, q: i64| Some((Px::from_units(p), Qty::from_units(q)));
    assert_eq!(s.observer().0, vec![(1, best(99, 1)), (2, best(98, 4))]);
}

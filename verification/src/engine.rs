//! Engine of a market: the only owner of its book. Events come in, and an immutable view
//! goes out.

use crate::align::{observe_line_next, on_trade_next};
use crate::book::BookState;
use crate::event::{AggTrade, Aggressor, DepthDiff, DepthSnapshot, Level, MarketEvent};
use crate::fixed::{Px, Qty};
use crate::flow::{flow_show, flow_view, FlowAgg, Obs, ObsState};
use crate::footprint::{metrics_show, tdiv, Metrics, MetricsView};
use crate::instrument::{InstrumentSpec, MarketId, MarketKind};
use crate::num::{add_i64, add_u64, clamp_i64, clamp_u64, to_i64};
use crate::ordmap::{
    find, holds, key_lt, lemma_entry_found, lemma_put, lemma_rank_splits, put, rank, sorted,
    SortedMap,
};
use crate::rule::SeqRule;
use crate::sync::{
    bump, bump_line, inc, on_diff_next, on_snapshot_next, on_tick_next, Phase, Progress, Step,
    SyncBook, SyncState, MAX_LINES,
};
use crate::telemetry::{latency_next, LatencyHist, LatencyState};
use crate::view::{BookShow, BookView, LatencySummary, LevelView, LineView, TradeView};
use vstd::prelude::*;

verus! {

/// Messages to the engine.
pub enum EngineMsg {
    /// Market event of a line.
    Event(MarketEvent),
    /// Snapshot by REST.
    Snapshot(DepthSnapshot),
    /// Rules of the instrument (they come some time after the start).
    Spec(InstrumentSpec),
    /// Orderly shutdown.
    Shutdown,
}

/// What a line carries.
#[derive(Debug, Clone, Copy, PartialEq, Eq, Structural)]
pub enum StreamKind {
    /// Depth (for spot also trades, on the same socket).
    Depth,
    /// Trades only (futures have an endpoint of their own for them).
    Trade,
}

/// What carries the trades of a market.
pub fn trade_stream(kind: MarketKind) -> (r: StreamKind)
    ensures
        r == (match kind {
            MarketKind::Spot => StreamKind::Depth,
            MarketKind::Perp => StreamKind::Trade,
        }),
{
    match kind {
        MarketKind::Spot => StreamKind::Depth,
        MarketKind::Perp => StreamKind::Trade,
    }
}

/// What a [`TradeDedup`] holds.
#[verifier::ext_equal]
pub struct DedupState {
    /// Ids seen, in order.
    pub seen: Seq<(u64, ())>,
    /// Ids up to this one are old (0: none yet).
    pub floor: u64,
    /// Most ids remembered.
    pub cap: int,
}

/// The id was not seen, and is not too old to know.
pub open spec fn fresh(s: DedupState, id: u64) -> bool {
    !(s.floor != 0 && id <= s.floor) && !holds(s.seen, id)
}

/// The deduplicator after an id: beyond its limit, it forgets the lowest.
pub open spec fn dedup_next(s: DedupState, id: u64) -> DedupState {
    if !fresh(s, id) {
        s
    } else {
        let seen = put(s.seen, id, ());
        if seen.len() > s.cap {
            DedupState { seen: seen.skip(1), floor: seen[0].0, ..s }
        } else {
            DedupState { seen, ..s }
        }
    }
}

/// Deduplicator of trades across lines, by id, with a bounded window.
pub struct TradeDedup {
    seen: SortedMap<u64, ()>,
    floor: u64,
    cap: usize,
}

impl TradeDedup {
    #[verifier::type_invariant]
    spec fn wf(self) -> bool {
        self.seen@.len() <= self.cap
    }

    /// What the deduplicator holds.
    pub closed spec fn content(&self) -> DedupState {
        DedupState { seen: self.seen@, floor: self.floor, cap: self.cap as int }
    }

    /// A deduplicator that remembers up to `cap` ids.
    pub fn new(cap: usize) -> (r: Self)
        ensures
            r.content() == (DedupState { seen: Seq::empty(), floor: 0, cap: cap as int }),
    {
        TradeDedup { seen: SortedMap::new(), floor: 0, cap }
    }

    /// Whether the id is new; from now on it is not.
    pub fn accept(&mut self, id: u64) -> (r: bool)
        ensures
            r == fresh(old(self).content(), id),
            final(self).content() == dedup_next(old(self).content(), id),
    {
        proof {
            use_type_invariant(&*self);
        }
        if id <= self.floor && self.floor != 0 {
            return false;
        }
        if self.seen.contains_key(&id) {
            return false;
        }
        let mut seen: SortedMap<u64, ()> = SortedMap::new();
        core::mem::swap(&mut seen, &mut self.seen);
        let ghost before = seen@;
        let _ = seen.len();
        proof {
            lemma_put(before, id, ());
        }
        seen.insert(id, ());
        if seen.len() > self.cap {
            if let Some((min, _)) = seen.pop_first() {
                self.floor = min;
            }
        }
        self.seen = seen;
        true
    }
}

/// An id that will not be accepted: seen, or too old.
pub open spec fn spent(s: DedupState, id: u64) -> bool {
    holds(s.seen, id) || (s.floor != 0 && id <= s.floor)
}

/// The deduplicator after some ids.
pub open spec fn dedup_run(s: DedupState, ids: Seq<u64>) -> DedupState
    decreases ids.len(),
{
    if ids.len() == 0 {
        s
    } else {
        dedup_next(dedup_run(s, ids.drop_last()), ids.last())
    }
}

/// The ids remembered are in order, and none of them is old.
pub open spec fn dedup_sound(s: DedupState) -> bool {
    &&& sorted(s.seen)
    &&& s.floor != 0 ==> forall|i: int| 0 <= i < s.seen.len() ==> s.floor < #[trigger] s.seen[i].0
}

proof fn lemma_put_above(s: DedupState, id: u64)
    requires
        dedup_sound(s),
        fresh(s, id),
    ensures
        sorted(put(s.seen, id, ())),
        s.floor != 0 ==> forall|i: int|
            0 <= i < put(s.seen, id, ()).len() ==> s.floor < #[trigger] put(s.seen, id, ())[i].0,
{
    let seen = put(s.seen, id, ());
    lemma_put(s.seen, id, ());
    lemma_rank_splits(s.seen, id);
    let p = rank(s.seen, id) as int;
    assert forall|i: int| s.floor != 0 && 0 <= i < seen.len() implies s.floor
        < #[trigger] seen[i].0 by {
        if i < p {
            assert(seen[i] == s.seen[i]);
        } else if i > p {
            assert(seen[i] == s.seen[i - 1]);
        }
    }
}

/// After an id other than 0 comes, it is spent; and what was spent stays so.
proof fn lemma_dedup_step(s: DedupState, id: u64, x: u64)
    requires
        dedup_sound(s),
        x != 0,
        x == id || spent(s, x),
    ensures
        spent(dedup_next(s, id), x),
{
    if fresh(s, id) {
        let seen = put(s.seen, id, ());
        lemma_put(s.seen, id, ());
        lemma_put_above(s, id);
        assert(find(seen, x) == (if x == id {
            Some(())
        } else {
            find(s.seen, x)
        }));
        if seen.len() > s.cap {
            let n = seen.skip(1);
            lemma_skip_sorted(seen);
            if holds(seen, x) {
                let p = rank(seen, x) as int;
                if p > 0 {
                    assert(n[p - 1] == seen[p]);
                    lemma_entry_found(n, p - 1);
                }
            } else {
                assert(s.floor != 0 && x <= s.floor);
                assert(s.floor < seen[0].0);
            }
        }
    }
}

proof fn lemma_skip_sorted(t: Seq<(u64, ())>)
    requires
        sorted(t),
        t.len() > 0,
    ensures
        sorted(t.skip(1)),
        forall|i: int| 0 <= i < t.skip(1).len() ==> t[0].0 < #[trigger] t.skip(1)[i].0,
{
    let n = t.skip(1);
    assert forall|i: int, j: int| 0 <= i < j < n.len() implies key_lt(
        #[trigger] n[i].0,
        #[trigger] n[j].0,
    ) by {
        assert(n[i] == t[i + 1] && n[j] == t[j + 1]);
    }
    assert forall|i: int| 0 <= i < n.len() implies t[0].0 < #[trigger] n[i].0 by {
        assert(n[i] == t[i + 1]);
        assert(key_lt(t[0].0, t[i + 1].0));
    }
}

proof fn lemma_dedup_sound(s: DedupState, id: u64)
    requires
        dedup_sound(s),
    ensures
        dedup_sound(dedup_next(s, id)),
{
    if fresh(s, id) {
        let seen = put(s.seen, id, ());
        lemma_put_above(s, id);
        lemma_put(s.seen, id, ());
        if seen.len() > s.cap && seen.len() > 0 {
            lemma_skip_sorted(seen);
        }
    }
}

proof fn lemma_run_sound(s: DedupState, ids: Seq<u64>)
    requires
        dedup_sound(s),
    ensures
        dedup_sound(dedup_run(s, ids)),
    decreases ids.len(),
{
    if ids.len() > 0 {
        lemma_run_sound(s, ids.drop_last());
        lemma_dedup_sound(dedup_run(s, ids.drop_last()), ids.last());
    }
}

/// Once an id other than 0 came, it is not accepted again, whatever came in between: a
/// trade that the lines repeat counts once.
pub proof fn law_never_accepted_twice(s: DedupState, ids: Seq<u64>, i: int)
    requires
        dedup_sound(s),
        0 <= i < ids.len(),
        ids[i] != 0,
    ensures
        !fresh(dedup_run(s, ids), ids[i]),
    decreases ids.len(),
{
    let t = ids.drop_last();
    lemma_run_sound(s, t);
    if i < t.len() {
        law_never_accepted_twice(s, t, i);
    }
    lemma_dedup_step(dedup_run(s, t), ids.last(), ids[i]);
}

/// What the deduplicator remembers is bounded.
pub proof fn law_dedup_bounded(s: DedupState, id: u64)
    requires
        dedup_sound(s),
        s.seen.len() <= s.cap,
    ensures
        dedup_next(s, id).seen.len() <= s.cap,
        dedup_sound(dedup_next(s, id)),
{
    lemma_dedup_sound(s, id);
    if fresh(s, id) {
        lemma_put(s.seen, id, ());
    }
}

/// Parameters of the engine.
#[derive(Debug, Clone, Copy, PartialEq, Eq, Structural)]
pub struct EngineConfig {
    /// Pulse of the clock (ms).
    pub tick_ms: u64,
    /// Period of publication of the view (ms).
    pub publish_ms: u64,
    /// Levels in the published top.
    pub top_levels: usize,
    /// Period of publication of the metrics (ms).
    pub metrics_ms: u64,
    /// Closed candles published per timeframe.
    pub closed_candles: usize,
}

impl Default for EngineConfig {
    fn default() -> (r: Self)
        ensures
            r == (EngineConfig {
                tick_ms: 50,
                publish_ms: 250,
                top_levels: 10,
                metrics_ms: 1_000,
                closed_candles: 12,
            }),
    {
        EngineConfig {
            tick_ms: 50,
            publish_ms: 250,
            top_levels: 10,
            metrics_ms: 1_000,
            closed_candles: 12,
        }
    }
}

/// Trades remembered to tell duplicates.
pub const DEDUP: usize = 100_000;

/// What an [`Engine`] holds.
#[verifier::ext_equal]
pub struct EngineState<R> {
    /// Name of the market.
    pub label: Seq<char>,
    /// The synchronised book.
    pub sync: SyncState<R, ObsState>,
    /// The parameters.
    pub cfg: EngineConfig,
    /// Price and quantity steps of the instrument, once its rules came.
    pub steps: Option<(Px, Qty)>,
    /// Levels off the price step.
    pub off_tick: u64,
    /// Latencies of the diffs, by line.
    pub lat_depth: Seq<LatencyState>,
    /// Latencies of the trades, by line.
    pub lat_trade: Seq<LatencyState>,
    /// Trades that came first by each line.
    pub trades_first: Seq<u64>,
    /// Summary of trades.
    pub trades: TradeView,
    /// The deduplicator of trades.
    pub dedup: DedupState,
    /// When the next view is due (ms).
    pub next_publish: u64,
    /// When the next metrics are due (ms).
    pub next_metrics: u64,
}

/// A new engine over a synchronised book.
pub open spec fn engine_start<R>(
    label: Seq<char>,
    sync: SyncState<R, ObsState>,
    cfg: EngineConfig,
) -> EngineState<R> {
    let no_latency = LatencyState { tally: Seq::empty(), negatives: 0 };
    EngineState {
        label,
        sync,
        cfg,
        steps: None,
        off_tick: 0,
        lat_depth: Seq::new(MAX_LINES as nat, |i: int| no_latency),
        lat_trade: Seq::new(MAX_LINES as nat, |i: int| no_latency),
        trades_first: seq![0, 0, 0, 0],
        trades: TradeView::zero(),
        dedup: DedupState { seen: Seq::empty(), floor: 0, cap: DEDUP as int },
        next_publish: 0,
        next_metrics: 0,
    }
}

/// The latency of an event, µs, with its sign.
pub open spec fn latency_of(wall_ns: u64, exch_ts_ms: u64) -> i64 {
    clamp_i64(wall_ns as int / 1_000 - exch_ts_ms * 1_000) as i64
}

/// The latencies of each line after one of a line.
pub open spec fn latencies_next(v: Seq<LatencyState>, line: u8, us: i64) -> Seq<LatencyState> {
    if line < v.len() {
        v.update(line as int, latency_next(v[line as int], us))
    } else {
        v
    }
}

/// How many levels are off a price step.
pub open spec fn off_step(levels: Seq<Level>, tick: Px) -> nat
    decreases levels.len(),
{
    if levels.len() == 0 {
        0
    } else {
        off_step(levels.drop_last(), tick) + (if tick.0 > 0 && levels.last().px.0 as int
            % tick.0 as int == 0 {
            0nat
        } else {
            1nat
        })
    }
}

/// What the engine notes of a diff before it goes to the book.
pub open spec fn noted<R>(s: EngineState<R>, d: DepthDiff) -> EngineState<R> {
    EngineState {
        lat_depth: latencies_next(
            s.lat_depth,
            d.rx.line,
            latency_of(d.rx.wall_ns, d.exch_ts_ms),
        ),
        off_tick: match s.steps {
            Some((tick, _)) => clamp_u64(
                s.off_tick + off_step(d.bids@, tick) + off_step(d.asks@, tick),
            ) as u64,
            None => s.off_tick,
        },
        ..s
    }
}

/// The summary of trades after a new trade.
pub open spec fn traded(v: TradeView, t: AggTrade) -> TradeView {
    TradeView {
        unique: inc(v.unique),
        fills: clamp_u64(v.fills + t.fills()) as u64,
        buy_qty: match t.aggressor {
            Aggressor::Buy => Qty(clamp_i64(v.buy_qty.0 + t.qty.0) as i64),
            Aggressor::Sell => v.buy_qty,
        },
        sell_qty: match t.aggressor {
            Aggressor::Buy => v.sell_qty,
            Aggressor::Sell => Qty(clamp_i64(v.sell_qty.0 + t.qty.0) as i64),
        },
        with_nq: if t.qty_normal is Some {
            inc(v.with_nq)
        } else {
            v.with_nq
        },
        rpi_qty: match t.qty_normal {
            Some(n) => Qty(clamp_i64(v.rpi_qty.0 + clamp_i64(t.qty.0 - n.0)) as i64),
            None => v.rpi_qty,
        },
        last_px: Some(t.px),
        ..v
    }
}

/// The engine after a trade. A repeated one only moves the mark of its line: it proves
/// that the line is past its time.
pub open spec fn trade_next<R>(s: EngineState<R>, t: AggTrade) -> EngineState<R> {
    let n = EngineState {
        lat_trade: latencies_next(
            s.lat_trade,
            t.rx.line,
            latency_of(t.rx.wall_ns, t.exch_ts_ms),
        ),
        trades: TradeView { rx: inc(s.trades.rx), ..s.trades },
        dedup: dedup_next(s.dedup, t.agg_id),
        ..s
    };
    if !fresh(s.dedup, t.agg_id) {
        EngineState {
            trades: TradeView { dup: inc(n.trades.dup), ..n.trades },
            sync: SyncState {
                obs: observe_line_next::<(FlowAgg, Metrics)>(
                    s.sync.obs,
                    t.rx.line,
                    t.exch_ts_ms,
                ),
                ..s.sync
            },
            ..n
        }
    } else {
        EngineState {
            trades_first: bump(s.trades_first, t.rx.line),
            trades: traded(n.trades, t),
            sync: SyncState {
                obs: on_trade_next::<(FlowAgg, Metrics)>(s.sync.obs, t),
                ..s.sync
            },
            ..n
        }
    }
}

/// An engine together with the actions of a step.
pub open spec fn stepped<R>(s: EngineState<R>, p: Progress<R, ObsState>) -> (
    EngineState<R>,
    Step,
) {
    (EngineState { sync: p.s, ..s }, p.st)
}

/// The engine after a message at a time, and the actions it asks for.
pub open spec fn handle_next<R: SeqRule>(s: EngineState<R>, msg: EngineMsg, now_ms: u64) -> (
    EngineState<R>,
    Step,
) {
    match msg {
        EngineMsg::Event(MarketEvent::Depth(d)) => stepped(
            noted(s, d),
            on_diff_next::<R, Obs>(s.sync, d, now_ms),
        ),
        EngineMsg::Event(MarketEvent::Trade(t)) => (trade_next(s, t), Step::none()),
        EngineMsg::Event(MarketEvent::Snapshot(d)) => stepped(
            s,
            on_snapshot_next::<R, Obs>(s.sync, d, now_ms),
        ),
        EngineMsg::Event(MarketEvent::Ignored) => (s, Step::none()),
        EngineMsg::Snapshot(d) => stepped(s, on_snapshot_next::<R, Obs>(s.sync, d, now_ms)),
        EngineMsg::Spec(i) => (
            EngineState { steps: Some((i.tick, i.step)), ..s },
            Step::none(),
        ),
        EngineMsg::Shutdown => (s, Step::none()),
    }
}

/// What is due at a pulse of the clock.
#[derive(Debug, Clone, Copy, PartialEq, Eq, Structural)]
pub struct Beat {
    /// Actions of the book.
    pub step: Step,
    /// The view is due.
    pub publish: bool,
    /// The metrics are due.
    pub metrics: bool,
}

/// The engine after a pulse of the clock, and what is due.
pub open spec fn tick_next<R: SeqRule>(s: EngineState<R>, now_ms: u64) -> (EngineState<R>, Beat) {
    let p = on_tick_next::<R, Obs>(s.sync, now_ms);
    let publish = now_ms >= s.next_publish;
    let metrics = now_ms >= s.next_metrics;
    (
        EngineState {
            sync: p.s,
            next_publish: if publish {
                clamp_u64(now_ms + s.cfg.publish_ms) as u64
            } else {
                s.next_publish
            },
            next_metrics: if metrics {
                clamp_u64(now_ms + s.cfg.metrics_ms) as u64
            } else {
                s.next_metrics
            },
            ..s
        },
        Beat { step: p.st, publish, metrics },
    )
}

/// What is known of a line outside the engine.
#[derive(Debug, Clone, Copy, PartialEq, Eq, Structural)]
pub struct LineIo {
    /// The depth connection is up.
    pub depth_up: bool,
    /// The trade connection is up.
    pub trade_up: bool,
    /// Disconnections.
    pub disconnects: u64,
    /// Summary of the latencies of diffs.
    pub depth_latency: LatencySummary,
    /// Summary of the latencies of trades.
    pub trade_latency: LatencySummary,
}

/// What is known outside the engine when a view is published.
pub struct Io {
    /// The lines.
    pub lines: [LineIo; MAX_LINES],
    /// Events discarded because the queue was full.
    pub ingest_dropped: u64,
    /// Frames that could not be read.
    pub parse_errors: u64,
    /// REST weight used in the last minute.
    pub rest_weight_1m: u32,
    /// Wall clock (UNIX ms).
    pub wall_ms: u64,
}

/// A level as it is shown.
pub open spec fn level_shown(l: Option<(Px, Qty)>) -> Option<LevelView> {
    match l {
        Some((px, qty)) => Some(LevelView { px, qty }),
        None => None,
    }
}

/// The first levels as they are shown.
pub open spec fn top_of(s: Seq<(Px, Qty)>, n: nat) -> Seq<LevelView> {
    Seq::new(
        if s.len() < n {
            s.len()
        } else {
            n
        },
        |i: int| LevelView { px: s[i].0, qty: s[i].1 },
    )
}

/// The mid price, rounded towards zero.
pub open spec fn mid_of(b: BookState) -> Option<Px> {
    match (b.best_bid(), b.best_ask()) {
        (Some(bid), Some(ask)) => Some(Px(tdiv(bid.0.0 + ask.0.0, 2) as i64)),
        _ => None,
    }
}

/// The view of an engine. While the book is not live it shows no price: a reader never
/// sees a book that may be wrong. The spread is left to whoever shows it.
pub open spec fn published<R>(s: EngineState<R>, io: Io) -> BookShow {
    let b = s.sync.book;
    let live = s.sync.phase == Phase::Live;
    let c = s.sync.stats;
    BookShow {
        market: s.label,
        phase: s.sync.phase,
        epoch: s.sync.epoch,
        last_update_id: s.sync.last,
        exch_ts_ms: s.sync.last_exch_ts_ms,
        book_age_ms: if s.sync.last_exch_ts_ms > 0 {
            clamp_i64(io.wall_ms - s.sync.last_exch_ts_ms) as i64
        } else {
            0
        },
        best_bid: if live {
            level_shown(b.best_bid())
        } else {
            None
        },
        best_ask: if live {
            level_shown(b.best_ask())
        } else {
            None
        },
        mid: if live {
            mid_of(b)
        } else {
            None
        },
        spread_bps: None,
        top_bids: if live {
            top_of(b.bids.reverse(), s.cfg.top_levels as nat)
        } else {
            Seq::empty()
        },
        top_asks: if live {
            top_of(b.asks, s.cfg.top_levels as nat)
        } else {
            Seq::empty()
        },
        levels: (b.bids.len() as usize, b.asks.len() as usize),
        coverage: b.coverage(),
        tick: match s.steps {
            Some((tick, _)) => Some(tick),
            None => None,
        },
        step: match s.steps {
            Some((_, step)) => Some(step),
            None => None,
        },
        off_tick_levels: s.off_tick,
        pending: s.sync.pending.len() as usize,
        buffer: s.sync.buffer.len() as usize,
        unaccounted: clamp_i64(
            c.diffs_rx - c.settled() - s.sync.buffer.len() - s.sync.pending.len(),
        ) as i64,
        sync: c,
        lines: Seq::new(
            MAX_LINES as nat,
            |i: int|
                LineView {
                    line: i as u8,
                    depth_up: io.lines@[i].depth_up,
                    trade_up: io.lines@[i].trade_up,
                    depth_latency: io.lines@[i].depth_latency,
                    trade_latency: io.lines@[i].trade_latency,
                    depth_first: c.applied_by_line[i],
                    depth_dup: c.stale_by_line[i],
                    trades_first: s.trades_first[i],
                    disconnects: io.lines@[i].disconnects,
                },
        ),
        trades: s.trades,
        flow: flow_show(s.sync.obs),
        ingest_dropped: io.ingest_dropped,
        parse_errors: io.parse_errors,
        rest_weight_1m: io.rest_weight_1m,
        published_wall_ms: io.wall_ms,
    }
}

/// What some histograms hold.
pub open spec fn hists(v: Seq<LatencyHist>) -> Seq<LatencyState> {
    Seq::new(v.len(), |i: int| v[i].content())
}

fn new_hists() -> (r: Vec<LatencyHist>)
    ensures
        r@.len() == MAX_LINES,
        forall|i: int| 0 <= i < MAX_LINES ==> (#[trigger] r@[i]).content() == (LatencyState {
            tally: Seq::empty(),
            negatives: 0,
        }),
{
    let mut r: Vec<LatencyHist> = Vec::new();
    let mut i: usize = 0;
    while i < MAX_LINES
        invariant
            i <= MAX_LINES,
            r@.len() == i,
            forall|j: int| 0 <= j < i ==> (#[trigger] r@[j]).content() == (LatencyState {
                tally: Seq::empty(),
                negatives: 0,
            }),
        decreases MAX_LINES - i,
    {
        r.push(LatencyHist::new());
        i += 1;
    }
    r
}

fn record_at(v: &mut Vec<LatencyHist>, line: u8, us: i64)
    ensures
        hists(final(v)@) == latencies_next(hists(old(v)@), line, us),
{
    let i: usize = line as usize;
    if i < v.len() {
        v[i].record_us(us);
    }
    assert(hists(v@) =~= latencies_next(hists(old(v)@), line, us));
}

/// The latency of an event, µs.
fn latency_us(wall_ns: u64, exch_ts_ms: u64) -> (r: i64)
    ensures
        r == latency_of(wall_ns, exch_ts_ms),
{
    to_i64((wall_ns / 1_000) as i128 - exch_ts_ms as i128 * 1_000)
}

fn count_off(levels: &Vec<Level>, spec: &InstrumentSpec) -> (r: u64)
    ensures
        r == off_step(levels@, spec.tick),
{
    let mut n: u64 = 0;
    let mut i: usize = 0;
    assert(levels@.take(0) =~= Seq::<Level>::empty());
    while i < levels.len()
        invariant
            i <= levels@.len(),
            n <= i,
            n == off_step(levels@.take(i as int), spec.tick),
        decreases levels@.len() - i,
    {
        assert(levels@.take(i + 1).drop_last() =~= levels@.take(i as int));
        if !spec.on_tick(levels[i].px) {
            n += 1;
        }
        i += 1;
    }
    assert(levels@.take(i as int) =~= levels@);
    n
}

/// The first `n` bids as they are shown, from best to worst.
fn top_bids(bids: &SortedMap<Px, Qty>, n: usize) -> (r: Vec<LevelView>)
    ensures
        r@ == top_of(bids@.reverse(), n as nat),
{
    let len = bids.len();
    let stop: usize = if len < n {
        len
    } else {
        n
    };
    let mut r: Vec<LevelView> = Vec::new();
    let mut i: usize = 0;
    while i < stop
        invariant
            i <= stop <= len == bids@.len(),
            r@.len() == i,
            forall|j: int|
                0 <= j < i ==> r@[j] == (LevelView {
                    px: bids@[len - 1 - j].0,
                    qty: bids@[len - 1 - j].1,
                }),
        decreases stop - i,
    {
        let k: usize = len - 1 - i;
        r.push(LevelView { px: *bids.key_at(k), qty: *bids.value_at(k) });
        i += 1;
    }
    assert(r@ =~= top_of(bids@.reverse(), n as nat));
    r
}

/// The first `n` asks as they are shown, from best to worst.
fn top_asks(asks: &SortedMap<Px, Qty>, n: usize) -> (r: Vec<LevelView>)
    ensures
        r@ == top_of(asks@, n as nat),
{
    let len = asks.len();
    let stop: usize = if len < n {
        len
    } else {
        n
    };
    let mut r: Vec<LevelView> = Vec::new();
    let mut i: usize = 0;
    while i < stop
        invariant
            i <= stop <= len == asks@.len(),
            r@.len() == i,
            forall|j: int| 0 <= j < i ==> r@[j] == (LevelView { px: asks@[j].0, qty: asks@[j].1 }),
        decreases stop - i,
    {
        r.push(LevelView { px: *asks.key_at(i), qty: *asks.value_at(i) });
        i += 1;
    }
    assert(r@ =~= top_of(asks@, n as nat));
    r
}

/// The mean of two prices, rounded towards zero.
fn middle(b: Px, a: Px) -> (r: Px)
    ensures
        r == Px(tdiv(b.0 + a.0, 2) as i64),
{
    let sum: i128 = b.0 as i128 + a.0 as i128;
    if sum < 0 {
        let half: i128 = (-sum) / 2;
        Px(-half as i64)
    } else {
        Px((sum / 2) as i64)
    }
}

/// Engine of a market.
pub struct Engine<R: SeqRule> {
    label: String,
    sync: SyncBook<R, Obs>,
    cfg: EngineConfig,
    spec: Option<InstrumentSpec>,
    off_tick: u64,
    lat_depth: Vec<LatencyHist>,
    lat_trade: Vec<LatencyHist>,
    trades_first: [u64; MAX_LINES],
    trades: TradeView,
    dedup: TradeDedup,
    next_publish: u64,
    next_metrics: u64,
}

impl<R: SeqRule> Engine<R> {
    /// What the engine holds.
    pub closed spec fn content(&self) -> EngineState<R> {
        EngineState {
            label: self.label@,
            sync: self.sync.state(),
            cfg: self.cfg,
            steps: match self.spec {
                Some(s) => Some((s.tick, s.step)),
                None => None,
            },
            off_tick: self.off_tick,
            lat_depth: hists(self.lat_depth@),
            lat_trade: hists(self.lat_trade@),
            trades_first: self.trades_first@,
            trades: self.trades,
            dedup: self.dedup.content(),
            next_publish: self.next_publish,
            next_metrics: self.next_metrics,
        }
    }

    /// The engine of a market.
    pub fn new(market: &MarketId, sync: SyncBook<R, Obs>, cfg: EngineConfig) -> (r: Self)
        ensures
            r.content() == engine_start(market.text(), sync.state(), cfg),
    {
        let r = Engine {
            label: market.to_string(),
            sync,
            cfg,
            spec: None,
            off_tick: 0,
            lat_depth: new_hists(),
            lat_trade: new_hists(),
            trades_first: [0, 0, 0, 0],
            trades: TradeView::default(),
            dedup: TradeDedup::new(DEDUP),
            next_publish: 0,
            next_metrics: 0,
        };
        assert(r.content() =~= engine_start(market.text(), sync.state(), cfg));
        r
    }

    /// Handles a message.
    pub fn handle(&mut self, msg: EngineMsg, now_ms: u64) -> (st: Step)
        ensures
            (final(self).content(), st) == handle_next(old(self).content(), msg, now_ms),
    {
        let ghost s0 = self.content();
        match msg {
            EngineMsg::Event(MarketEvent::Depth(d)) => {
                self.record_depth(&d);
                let st = self.sync.on_diff(d, now_ms);
                assert(self.content() =~= handle_next(s0, msg, now_ms).0);
                st
            },
            EngineMsg::Event(MarketEvent::Trade(t)) => {
                self.on_trade(t);
                Step::default()
            },
            EngineMsg::Event(MarketEvent::Snapshot(s)) => {
                let st = self.sync.on_snapshot(s, now_ms);
                assert(self.content() =~= handle_next(s0, msg, now_ms).0);
                st
            },
            EngineMsg::Snapshot(s) => {
                let st = self.sync.on_snapshot(s, now_ms);
                assert(self.content() =~= handle_next(s0, msg, now_ms).0);
                st
            },
            EngineMsg::Spec(s) => {
                self.spec = Some(s);
                assert(self.content() =~= handle_next(s0, msg, now_ms).0);
                Step::default()
            },
            EngineMsg::Event(MarketEvent::Ignored) | EngineMsg::Shutdown => Step::default(),
        }
    }

    /// A pulse of the clock, after each message or wait.
    pub fn on_tick(&mut self, now_ms: u64) -> (r: Beat)
        ensures
            (final(self).content(), r) == tick_next(old(self).content(), now_ms),
    {
        let ghost s0 = self.content();
        let step = self.sync.on_tick(now_ms);
        let publish = now_ms >= self.next_publish;
        if publish {
            self.next_publish = add_u64(now_ms, self.cfg.publish_ms);
        }
        let metrics = now_ms >= self.next_metrics;
        if metrics {
            self.next_metrics = add_u64(now_ms, self.cfg.metrics_ms);
        }
        assert(self.content() =~= tick_next(s0, now_ms).0);
        Beat { step, publish, metrics }
    }

    /// Notes the latency and the quality of a diff.
    fn record_depth(&mut self, d: &DepthDiff)
        ensures
            final(self).content() == noted(old(self).content(), *d),
    {
        let ghost s0 = self.content();
        record_at(&mut self.lat_depth, d.rx.line, latency_us(d.rx.wall_ns, d.exch_ts_ms));
        if let Some(spec) = &self.spec {
            let n = count_off(&d.bids, spec);
            let m = count_off(&d.asks, spec);
            self.off_tick = add_u64(add_u64(self.off_tick, n), m);
        }
        assert(self.content() =~= noted(s0, *d));
    }

    /// A trade comes by a line.
    fn on_trade(&mut self, t: AggTrade)
        ensures
            final(self).content() == trade_next(old(self).content(), t),
    {
        let ghost s0 = self.content();
        self.trades.rx = add_u64(self.trades.rx, 1);
        record_at(&mut self.lat_trade, t.rx.line, latency_us(t.rx.wall_ns, t.exch_ts_ms));
        if !self.dedup.accept(t.agg_id) {
            self.trades.dup = add_u64(self.trades.dup, 1);
            self.sync.observer_mut().observe_line(t.rx.line, t.exch_ts_ms);
            assert(self.content() =~= trade_next(s0, t));
            return;
        }
        bump_line(&mut self.trades_first, t.rx.line);
        self.trades.unique = add_u64(self.trades.unique, 1);
        self.trades.fills = add_u64(self.trades.fills, t.n_fills());
        match t.aggressor {
            Aggressor::Buy => {
                self.trades.buy_qty = Qty(add_i64(self.trades.buy_qty.0, t.qty.0));
            },
            Aggressor::Sell => {
                self.trades.sell_qty = Qty(add_i64(self.trades.sell_qty.0, t.qty.0));
            },
        }
        if let Some(r) = t.qty_rpi() {
            self.trades.with_nq = add_u64(self.trades.with_nq, 1);
            self.trades.rpi_qty = Qty(add_i64(self.trades.rpi_qty.0, r.0));
        }
        self.trades.last_px = Some(t.px);
        self.sync.observer_mut().on_trade(&t);
        assert(self.content() =~= trade_next(s0, t));
    }

    /// The name of the market.
    pub fn label(&self) -> (r: &str)
        ensures
            r@ == self.content().label,
    {
        self.label.as_str()
    }

    /// The latencies of the diffs of a line.
    pub fn depth_latency(&self, line: usize) -> (r: Option<&LatencyHist>)
        ensures
            match r {
                Some(h) => line < self.content().lat_depth.len() && h.content()
                    == self.content().lat_depth[line as int],
                None => line >= self.content().lat_depth.len(),
            },
    {
        if line < self.lat_depth.len() {
            Some(&self.lat_depth[line])
        } else {
            None
        }
    }

    /// The latencies of the trades of a line.
    pub fn trade_latency(&self, line: usize) -> (r: Option<&LatencyHist>)
        ensures
            match r {
                Some(h) => line < self.content().lat_trade.len() && h.content()
                    == self.content().lat_trade[line as int],
                None => line >= self.content().lat_trade.len(),
            },
    {
        if line < self.lat_trade.len() {
            Some(&self.lat_trade[line])
        } else {
            None
        }
    }

    /// The metrics to be published.
    pub fn publish_metrics(&self) -> (r: MetricsView)
        ensures
            r@ == metrics_show(
                self.content().sync.obs.sink.1,
                self.content().cfg.closed_candles as nat,
            ),
    {
        self.sync.observer().sink().1.view(self.cfg.closed_candles)
    }

    /// The view to be published.
    pub fn publish(&self, io: &Io) -> (r: BookView)
        ensures
            r@ == published(self.content(), *io),
    {
        let book = self.sync.book();
        let live = self.sync.phase() == Phase::Live;
        let bb = if live {
            book.best_bid()
        } else {
            None
        };
        let ba = if live {
            book.best_ask()
        } else {
            None
        };
        let mid = match (bb, ba) {
            (Some((b, _)), Some((a, _))) => Some(middle(b, a)),
            _ => None,
        };
        let top = self.cfg.top_levels;
        let exch_ts = self.sync.last_exch_ts_ms();
        let stats = self.sync.stats();
        let mut lines: Vec<LineView> = Vec::new();
        let mut i: usize = 0;
        while i < MAX_LINES
            invariant
                i <= MAX_LINES,
                lines@.len() == i,
                stats@ == self.content().sync.stats,
                forall|j: int|
                    0 <= j < i ==> #[trigger] lines@[j] == published(
                        self.content(),
                        *io,
                    ).lines[j],
            decreases MAX_LINES - i,
        {
            let l = io.lines[i];
            lines.push(
                LineView {
                    line: i as u8,
                    depth_up: l.depth_up,
                    trade_up: l.trade_up,
                    depth_latency: l.depth_latency,
                    trade_latency: l.trade_latency,
                    depth_first: stats.applied_by_line[i],
                    depth_dup: stats.stale_by_line[i],
                    trades_first: self.trades_first[i],
                    disconnects: l.disconnects,
                },
            );
            i += 1;
        }
        let (nb, na) = book.depth_len();
        let r = BookView {
            market: self.label.clone(),
            phase: self.sync.phase(),
            epoch: self.sync.epoch(),
            last_update_id: self.sync.last_update_id(),
            exch_ts_ms: exch_ts,
            book_age_ms: if exch_ts > 0 {
                to_i64(io.wall_ms as i128 - exch_ts as i128)
            } else {
                0
            },
            best_bid: match bb {
                Some((px, qty)) => Some(LevelView { px, qty }),
                None => None,
            },
            best_ask: match ba {
                Some((px, qty)) => Some(LevelView { px, qty }),
                None => None,
            },
            mid,
            spread_bps: None,
            top_bids: if live {
                top_bids(book.bids(), top)
            } else {
                Vec::new()
            },
            top_asks: if live {
                top_asks(book.asks(), top)
            } else {
                Vec::new()
            },
            levels: (nb, na),
            coverage: book.coverage(),
            tick: match &self.spec {
                Some(s) => Some(s.tick),
                None => None,
            },
            step: match &self.spec {
                Some(s) => Some(s.step),
                None => None,
            },
            off_tick_levels: self.off_tick,
            pending: self.sync.pending_len(),
            buffer: self.sync.buffer_len(),
            unaccounted: self.sync.unaccounted(),
            sync: stats.copy(),
            lines,
            trades: self.trades,
            flow: flow_view(self.sync.observer()),
            ingest_dropped: io.ingest_dropped,
            parse_errors: io.parse_errors,
            rest_weight_1m: io.rest_weight_1m,
            published_wall_ms: io.wall_ms,
        };
        assert(r@ =~= published(self.content(), *io));
        r
    }
}

/// A view never shows prices of a book that is not synchronised.
pub proof fn law_no_price_out_of_sync<R>(s: EngineState<R>, io: Io)
    requires
        s.sync.phase != Phase::Live,
    ensures
        ({
            let v = published(s, io);
            &&& v.best_bid is None
            &&& v.best_ask is None
            &&& v.mid is None
            &&& v.top_bids.len() == 0
            &&& v.top_asks.len() == 0
        }),
{
}

/// Every trade received counts once: as new or as repeated.
pub proof fn law_trades_counted<R>(s: EngineState<R>, t: AggTrade)
    requires
        s.trades.rx < u64::MAX,
        s.trades.rx == s.trades.unique + s.trades.dup,
    ensures
        trade_next(s, t).trades.rx == trade_next(s, t).trades.unique + trade_next(
            s,
            t,
        ).trades.dup,
{
}

} // verus!

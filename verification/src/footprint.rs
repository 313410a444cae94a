//! Footprint candles per price bucket, and detector of retired walls.
//!
//! Everything is in exchange time and integer arithmetic: quantities are `i64` in
//! units of 1e-8 and areas `qty * ms` are `i128`.
//!
//! Each candle keeps, per bucket, an area and the instant of its last change: the
//! area grows by `previous quantity * elapsed` only when the quantity changes. The
//! time-weighted average (TWA) at `t` is the area up to `t` over the observed time,
//! which leaves out the intervals without synchronisation.
//!
//! A bucket of a side is a retired wall if, at the instant its quantity falls under
//! `(1 - X) * TWA` of the candle of the wall timeframe,
//! 1. its TWA reaches percentile P of the TWAs of its side (nearest rank, buckets
//!    within the coverage),
//! 2. it is at most N buckets away from the bucket of the mid price,
//! 3. the executions in the window explain less than Y of the visible drop. The
//!    window starts the last time the bucket was at or over its TWA.
//!
//! Each window is evaluated once. A window that holds a contaminated batch can
//! claim nothing on executions and is rejected.

use crate::align::{BatchInfo, FlowSink, LevelFlow};
use crate::book::{BookState, L2Book};
use crate::event::Side;
use crate::fixed::{lemma_floor, Px, Qty};
use crate::num::{
    add_i128, add_i64, add_u64, clamp_i128, clamp_i64, clamp_u64, mul_i128, sub_i64, sub_u64, to_i64,
};
use crate::ordmap::{del, find, put, sorted, SortKey, SortedMap};
use crate::sync::{inc, ResyncReason};
use vstd::prelude::*;

verus! {

/// 15 minutes in ms.
pub const TF_15M: u64 = 900_000;

/// 1 hour in ms.
pub const TF_1H: u64 = 3_600_000;

/// 4 hours in ms.
pub const TF_4H: u64 = 14_400_000;

/// Parameters of the detector of retired walls.
#[derive(Debug, Clone, Copy, PartialEq, Eq, Structural)]
pub struct WallConfig {
    /// P: percentile of the TWA.
    pub percentile: u32,
    /// X: least drop, in % of the TWA.
    pub drop_pct: u32,
    /// N: longest distance to the mid price, in buckets.
    pub max_distance: i64,
    /// Y: largest part of the drop explained by executions, in %.
    pub max_exec_pct: u32,
}

impl Default for WallConfig {
    /// P 90, X 50 %, N 2, Y 20 %.
    fn default() -> (r: Self)
        ensures
            r == (WallConfig { percentile: 90, drop_pct: 50, max_distance: 2, max_exec_pct: 20 }),
    {
        WallConfig { percentile: 90, drop_pct: 50, max_distance: 2, max_exec_pct: 20 }
    }
}

/// Parameters of tactical against structural liquidity: `R` is the TWA of a short
/// candle over that of the long candle closed before it.
#[derive(Debug, Clone, Copy, PartialEq, Eq, Structural)]
pub struct TacticalConfig {
    /// Short timeframe.
    pub short_tf_ms: u64,
    /// Long timeframe of reference.
    pub long_tf_ms: u64,
    /// Lower limit of "R is about 1", in %.
    pub approx_low_pct: u32,
    /// Upper limit of "R is about 1", in %.
    pub approx_high_pct: u32,
    /// Percentile that makes a reference TWA high.
    pub high_percentile: u32,
}

impl Default for TacticalConfig {
    /// 15 minutes against 4 hours, 80 % to 125 %, percentile 90.
    fn default() -> (r: Self)
        ensures
            r == (TacticalConfig {
                short_tf_ms: TF_15M,
                long_tf_ms: TF_4H,
                approx_low_pct: 80,
                approx_high_pct: 125,
                high_percentile: 90,
            }),
    {
        TacticalConfig {
            short_tf_ms: TF_15M,
            long_tf_ms: TF_4H,
            approx_low_pct: 80,
            approx_high_pct: 125,
            high_percentile: 90,
        }
    }
}

/// Reading of tactical against structural liquidity.
#[derive(Debug, Clone, Copy, PartialEq, Eq, Structural)]
pub enum Liquidity {
    /// R about 1 with a high reference: the size has been there for hours.
    Estructural,
    /// R about 1 without a high reference: stable but not relevant.
    Estable,
    /// R over 1 (or no liquidity in the reference): put there a short while ago.
    Tactica,
    /// R under 1: there was size and it is leaving.
    Desarmandose,
}

/// Parameters of the metrics.
#[derive(Debug, Clone)]
pub struct MetricsConfig {
    /// Width of a bucket.
    pub bucket: Px,
    /// Timeframes of the candles (ms).
    pub timeframes_ms: Vec<u64>,
    /// Timeframe of the TWA of the wall detector.
    pub wall_tf_ms: u64,
    /// Closed candles kept per timeframe.
    pub keep_closed: usize,
    /// Wall events kept.
    pub keep_walls: usize,
    /// Detector.
    pub wall: WallConfig,
    /// Tactical against structural.
    pub tactical: TacticalConfig,
}

impl MetricsConfig {
    /// The widths and timeframes are not zero.
    pub open spec fn valid(self) -> bool {
        &&& self.bucket.0 > 0
        &&& self.tactical.long_tf_ms > 0
        &&& forall|i: int|
            0 <= i < self.timeframes_ms@.len() ==> #[trigger] self.timeframes_ms@[i] > 0
    }
}

impl Default for MetricsConfig {
    /// Buckets of one unit; candles of 15 minutes, 1 hour and 4 hours.
    fn default() -> (r: Self)
        ensures
            r.valid(),
            r.bucket.0 == crate::fixed::SCALE,
            r.timeframes_ms@ == seq![TF_15M, TF_1H, TF_4H],
            r.wall_tf_ms == TF_4H,
            r.keep_closed == 96,
            r.keep_walls == 500,
            r.wall == (WallConfig {
                percentile: 90,
                drop_pct: 50,
                max_distance: 2,
                max_exec_pct: 20,
            }),
            r.tactical == (TacticalConfig {
                short_tf_ms: TF_15M,
                long_tf_ms: TF_4H,
                approx_low_pct: 80,
                approx_high_pct: 125,
                high_percentile: 90,
            }),
    {
        let mut timeframes_ms: Vec<u64> = Vec::new();
        timeframes_ms.push(TF_15M);
        timeframes_ms.push(TF_1H);
        timeframes_ms.push(TF_4H);
        assert(timeframes_ms@ =~= seq![TF_15M, TF_1H, TF_4H]);
        MetricsConfig {
            bucket: Px::from_units(1),
            timeframes_ms,
            wall_tf_ms: TF_4H,
            keep_closed: 96,
            keep_walls: 500,
            wall: WallConfig::default(),
            tactical: TacticalConfig::default(),
        }
    }
}

impl SortKey for (Side, i64) {
    open spec fn major(self) -> int {
        match self.0 {
            Side::Bid => 0,
            Side::Ask => 1,
        }
    }

    open spec fn minor(self) -> int {
        self.1 as int
    }

    proof fn same_rank(a: Self, b: Self) {
    }

    fn precedes(&self, other: &Self) -> (r: bool) {
        match (self.0, other.0) {
            (Side::Bid, Side::Ask) => true,
            (Side::Ask, Side::Bid) => false,
            _ => self.1 < other.1,
        }
    }
}

/// A bucket of a candle.
#[derive(Debug, Clone, Copy, PartialEq, Eq, Structural)]
pub struct CellState {
    /// Area `qty * ms` up to `last_ts`.
    pub acc: i128,
    /// Instant of the last change.
    pub last_ts: u64,
    /// Quantity since then.
    pub qty: i64,
    /// Executed.
    pub executed: i64,
    /// Executed against hidden retail orders.
    pub rpi: i64,
    /// Fills.
    pub fills: u64,
    /// Trades.
    pub trades: u64,
    /// Sum of the lower bounds of what was not visible.
    pub nv: i64,
    /// Sum of the lower bounds of what was cancelled.
    pub cm: i64,
    /// Sum of the lower bounds of what was added.
    pub am: i64,
}

/// A bucket with a quantity and nothing else yet.
pub open spec fn new_cell(qty: i64, ts: u64) -> CellState {
    CellState {
        acc: 0,
        last_ts: ts,
        qty,
        executed: 0,
        rpi: 0,
        fills: 0,
        trades: 0,
        nv: 0,
        cm: 0,
        am: 0,
    }
}

/// A candle.
struct Candle {
    tf: u64,
    start: u64,
    end: u64,
    observed: u64,
    live_since: Option<u64>,
    clean: bool,
    cells: SortedMap<(Side, i64), CellState>,
}

/// What a candle holds.
#[verifier::ext_equal]
pub struct CandleState {
    /// Timeframe (ms).
    pub tf: u64,
    /// Start.
    pub start: u64,
    /// End, exclusive.
    pub end: u64,
    /// Observed time before `live_since`.
    pub observed: u64,
    /// Since when the book is synchronised, if it is.
    pub live_since: Option<u64>,
    /// It was synchronised all along, with no contaminated batch.
    pub clean: bool,
    /// The buckets.
    pub cells: Seq<((Side, i64), CellState)>,
}

impl View for Candle {
    type V = CandleState;

    closed spec fn view(&self) -> CandleState {
        CandleState {
            tf: self.tf,
            start: self.start,
            end: self.end,
            observed: self.observed,
            live_since: self.live_since,
            clean: self.clean,
            cells: self.cells@,
        }
    }
}

/// A window of the wall detector.
#[derive(Debug, Clone, Copy, PartialEq, Eq, Structural)]
pub struct Window {
    /// When it starts.
    pub start_ts: u64,
    /// Quantity at the start.
    pub start_qty: i64,
    /// Executed in it.
    pub executed: i64,
    /// It was evaluated.
    pub evaluated: bool,
    /// It holds a contaminated batch.
    pub poisoned: bool,
}

/// A retired wall.
#[derive(Debug, Clone, Copy, PartialEq, Eq, Structural)]
pub struct WallRetired {
    /// Side.
    pub side: Side,
    /// Bucket.
    pub bucket: i64,
    /// Lower price of the bucket.
    pub px_low: Px,
    /// Instant of the crossing (exchange ms).
    pub ts_ms: u64,
    /// Start of the window.
    pub window_start_ms: u64,
    /// TWA of the bucket at the crossing.
    pub twa: Qty,
    /// Threshold of the percentile.
    pub percentile_twa: Qty,
    /// Quantity at the start of the window.
    pub start_qty: Qty,
    /// Quantity at the crossing.
    pub qty: Qty,
    /// Executed in the window.
    pub executed: Qty,
    /// Distance to the bucket of the mid price.
    pub distance: i64,
}

/// Counters of the detector.
#[derive(Debug, Clone, Copy, PartialEq, Eq, Structural)]
pub struct WallStats {
    /// Windows evaluated.
    pub evaluated: u64,
    /// Walls emitted.
    pub fired: u64,
    /// Rejected by percentile.
    pub rejected_percentile: u64,
    /// Rejected by distance.
    pub rejected_distance: u64,
    /// Rejected by executions.
    pub rejected_exec: u64,
    /// Rejected by contaminated window.
    pub rejected_contaminated: u64,
    /// Rejected because the bucket is out of the coverage.
    pub rejected_coverage: u64,
    /// Rejected because there is no mid price.
    pub rejected_no_mid: u64,
}

impl WallStats {
    /// Every counter at zero.
    pub open spec fn zero() -> WallStats {
        WallStats {
            evaluated: 0,
            fired: 0,
            rejected_percentile: 0,
            rejected_distance: 0,
            rejected_exec: 0,
            rejected_contaminated: 0,
            rejected_coverage: 0,
            rejected_no_mid: 0,
        }
    }
}

impl Default for WallStats {
    /// Every counter at zero.
    fn default() -> (r: Self)
        ensures
            r == WallStats::zero(),
    {
        WallStats {
            evaluated: 0,
            fired: 0,
            rejected_percentile: 0,
            rejected_distance: 0,
            rejected_exec: 0,
            rejected_contaminated: 0,
            rejected_coverage: 0,
            rejected_no_mid: 0,
        }
    }
}

/// What a batch did to one bucket.
#[derive(Debug, Clone, Copy, PartialEq, Eq, Structural)]
pub struct Touch {
    /// Quantity before.
    pub prev: i64,
    /// Quantity after.
    pub new: i64,
    /// Executed.
    pub executed: i64,
    /// Executed against hidden retail orders.
    pub rpi: i64,
    /// Fills.
    pub fills: u64,
    /// Trades.
    pub trades: u64,
    /// Lower bound of what was not visible.
    pub nv: i64,
    /// Lower bound of what was cancelled.
    pub cm: i64,
    /// Lower bound of what was added.
    pub am: i64,
}

/// Division towards zero by a positive number.
pub open spec fn tdiv(a: int, b: int) -> int {
    if a < 0 {
        -((-a) / b)
    } else {
        a / b
    }
}

/// The bucket of a price.
pub open spec fn bucket_of(px: Px, width: Px) -> i64 {
    (px.0 as int / width.0 as int) as i64
}

/// The price where a bucket begins.
pub open spec fn low_px(bucket: i64, width: Px) -> Px {
    Px(clamp_i64(bucket * width.0) as i64)
}

/// The quantity under `k`, or zero.
pub open spec fn qty_at<K: SortKey>(s: Seq<(K, i64)>, k: K) -> i64 {
    match find(s, k) {
        Some(q) => q,
        None => 0,
    }
}

/// Quantities after fixing one (zero removes it).
pub open spec fn with_qty<K: SortKey>(s: Seq<(K, i64)>, k: K, q: i64) -> Seq<(K, i64)> {
    if q == 0 {
        del(s, k)
    } else {
        put(s, k, q)
    }
}

/// What [`Metrics`] holds.
#[verifier::ext_equal]
pub struct MetricsState {
    /// The parameters.
    pub cfg: MetricsConfig,
    /// Quantities of the bids, by price.
    pub bids: Seq<(Px, i64)>,
    /// Quantities of the asks, by price.
    pub asks: Seq<(Px, i64)>,
    /// Quantities of the bids, by bucket.
    pub bid_buckets: Seq<(i64, i64)>,
    /// Quantities of the asks, by bucket.
    pub ask_buckets: Seq<(i64, i64)>,
    /// Bids at or below this bucket are unknown.
    pub floor: Option<i64>,
    /// Asks at or above this bucket are unknown.
    pub ceiling: Option<i64>,
    /// The coverage follows the levels present.
    pub rolling: bool,
    /// The candles of each timeframe (none before the first batch).
    pub tracks: Seq<TrackState>,
    /// Windows of the wall detector.
    pub windows: Seq<((Side, i64), Window)>,
    /// Flows of the batch in progress.
    pub batch: Seq<LevelFlow>,
    /// The book is synchronised.
    pub live: bool,
    /// The book was rebuilt and no batch came since.
    pub resume_pending: bool,
    /// Last instant processed.
    pub now: u64,
    /// Walls retired, oldest first.
    pub walls: Seq<WallRetired>,
    /// Counters of the detector.
    pub wall_stats: WallStats,
}

/// The first position of `x` from `i` on.
pub open spec fn position_from(s: Seq<u64>, x: u64, i: int) -> Option<int>
    decreases s.len() - i,
{
    if i >= s.len() {
        None
    } else if s[i] == x {
        Some(i)
    } else {
        position_from(s, x, i + 1)
    }
}

/// The state of a new engine.
pub open spec fn metrics_start(cfg: MetricsConfig) -> MetricsState {
    MetricsState {
        cfg,
        bids: Seq::empty(),
        asks: Seq::empty(),
        bid_buckets: Seq::empty(),
        ask_buckets: Seq::empty(),
        floor: None,
        ceiling: None,
        rolling: false,
        tracks: Seq::empty(),
        windows: Seq::empty(),
        batch: Seq::empty(),
        live: false,
        resume_pending: false,
        now: 0,
        walls: Seq::empty(),
        wall_stats: WallStats::zero(),
    }
}

impl CandleState {
    /// The observed time up to `ts`.
    pub open spec fn observed_at(self, ts: u64) -> u64 {
        match self.live_since {
            Some(t) => clamp_u64(self.observed + clamp_u64(ts - t)) as u64,
            None => self.observed,
        }
    }
}

/// The area of a bucket up to `ts`.
pub open spec fn acc_at(c: CellState, ts: u64, live: bool) -> i128 {
    if live {
        clamp_i128(c.acc + c.qty * clamp_u64(ts - c.last_ts)) as i128
    } else {
        c.acc
    }
}

/// A TWA: an area over an observed time.
pub open spec fn average(acc: i128, obs: u64) -> i64 {
    clamp_i64(tdiv(acc as int, obs as int)) as i64
}

/// The floor at this instant.
pub open spec fn floor_at(s: MetricsState) -> Option<i64> {
    if s.rolling {
        if s.bids.len() == 0 {
            None
        } else {
            Some(bucket_of(s.bids[0].0, s.cfg.bucket))
        }
    } else {
        s.floor
    }
}

/// The ceiling at this instant.
pub open spec fn ceiling_at(s: MetricsState) -> Option<i64> {
    if s.rolling {
        if s.asks.len() == 0 {
            None
        } else {
            Some(bucket_of(s.asks.last().0, s.cfg.bucket))
        }
    } else {
        s.ceiling
    }
}

/// The bucket is at least partly out of the coverage.
pub open spec fn partial(s: MetricsState, side: Side, b: i64) -> bool {
    match side {
        Side::Bid => match floor_at(s) {
            Some(f) => b <= f,
            None => false,
        },
        Side::Ask => match ceiling_at(s) {
            Some(c) => b >= c,
            None => false,
        },
    }
}

/// The cells of one side of a new candle.
pub open spec fn side_cells(side: Side, buckets: Seq<(i64, i64)>, ts: u64) -> Seq<
    ((Side, i64), CellState),
> {
    Seq::new(buckets.len(), |i: int| ((side, buckets[i].0), new_cell(buckets[i].1, ts)))
}

/// A new candle that starts at `start`, with the present quantities.
pub open spec fn opened(
    bids: Seq<(i64, i64)>,
    asks: Seq<(i64, i64)>,
    tf: u64,
    start: u64,
    live_at: Option<u64>,
) -> CandleState {
    let ts = match live_at {
        Some(t) => t,
        None => start,
    };
    CandleState {
        tf,
        start,
        end: clamp_u64(start + tf) as u64,
        observed: 0,
        live_since: live_at,
        clean: live_at == Some(start),
        cells: side_cells(Side::Bid, bids, ts) + side_cells(Side::Ask, asks, ts),
    }
}

/// The cells with their areas brought up to `at`.
pub open spec fn settled_cells(
    cells: Seq<((Side, i64), CellState)>,
    at: u64,
    live: bool,
) -> Seq<((Side, i64), CellState)> {
    Seq::new(
        cells.len(),
        |i: int|
            (cells[i].0, CellState { acc: acc_at(cells[i].1, at, live), last_ts: at, ..cells[i].1 }),
    )
}

/// A candle closed at `at`.
pub open spec fn closed_at(c: CandleState, at: u64) -> CandleState {
    CandleState {
        observed: c.observed_at(at),
        live_since: None,
        cells: settled_cells(c.cells, at, c.live_since is Some),
        ..c
    }
}

/// The last `n` of a sequence.
pub open spec fn last_n<A>(s: Seq<A>, n: nat) -> Seq<A> {
    if s.len() <= n {
        s
    } else {
        s.skip(s.len() - n)
    }
}

/// The candle in progress of a timeframe and the closed ones.
#[verifier::ext_equal]
pub struct TrackState {
    /// In progress.
    pub cur: CandleState,
    /// Closed, oldest first.
    pub past: Seq<CandleState>,
}

/// A track at instant `ts`: candles that ended are closed and the next ones
/// opened, one after the other, with the present quantities.
pub open spec fn rolled(
    bids: Seq<(i64, i64)>,
    asks: Seq<(i64, i64)>,
    keep: nat,
    t: TrackState,
    ts: u64,
) -> TrackState
    decreases u64::MAX - t.cur.end,
{
    if ts < t.cur.end || t.cur.end == u64::MAX || t.cur.tf == 0 {
        t
    } else {
        let end = t.cur.end;
        let live_at = if t.cur.live_since is Some {
            Some(end)
        } else {
            None
        };
        rolled(
            bids,
            asks,
            keep,
            TrackState {
                cur: opened(bids, asks, t.cur.tf, end, live_at),
                past: last_n(t.past.push(closed_at(t.cur, end)), keep),
            },
            ts,
        )
    }
}

/// The first candle of a timeframe, opened in the middle: it never is clean.
pub open spec fn first_candle(
    bids: Seq<(i64, i64)>,
    asks: Seq<(i64, i64)>,
    live: bool,
    tf: u64,
    ts: u64,
) -> CandleState {
    let live_at = if live {
        Some(ts)
    } else {
        None
    };
    CandleState { clean: false, ..opened(bids, asks, tf, ((ts / tf) * tf) as u64, live_at) }
}

/// The candles at instant `ts`.
pub open spec fn advanced(s: MetricsState, ts: u64) -> MetricsState {
    let tfs = s.cfg.timeframes_ms@;
    MetricsState {
        tracks: if s.tracks.len() == 0 {
            Seq::new(
                tfs.len(),
                |i: int|
                    TrackState {
                        cur: first_candle(s.bid_buckets, s.ask_buckets, s.live, tfs[i], ts),
                        past: Seq::empty(),
                    },
            )
        } else {
            Seq::new(
                s.tracks.len(),
                |i: int|
                    rolled(
                        s.bid_buckets,
                        s.ask_buckets,
                        s.cfg.keep_closed as nat,
                        s.tracks[i],
                        ts,
                    ),
            )
        },
        ..s
    }
}

/// A candle whose book lost synchronisation at `at`.
pub open spec fn paused(c: CandleState, at: u64) -> CandleState {
    CandleState {
        observed: c.observed_at(at),
        live_since: None,
        clean: false,
        cells: if c.live_since is Some {
            settled_cells(c.cells, at, true)
        } else {
            c.cells
        },
        ..c
    }
}

/// The quantities per bucket of the levels of a side.
pub open spec fn bucketed(levels: Seq<(Px, i64)>, width: Px) -> Seq<(i64, i64)>
    decreases levels.len(),
{
    if levels.len() == 0 {
        Seq::empty()
    } else {
        let s = bucketed(levels.drop_last(), width);
        let b = bucket_of(levels.last().0, width);
        put(s, b, clamp_i64(qty_at(s, b) + levels.last().1) as i64)
    }
}

/// Cells joined by the buckets of one side that they lack.
pub open spec fn joined(
    cells: Seq<((Side, i64), CellState)>,
    side: Side,
    buckets: Seq<(i64, i64)>,
    at: u64,
) -> Seq<((Side, i64), CellState)>
    decreases buckets.len(),
{
    if buckets.len() == 0 {
        cells
    } else {
        let s = joined(cells, side, buckets.drop_last(), at);
        let (b, q) = buckets.last();
        match find(s, (side, b)) {
            Some(_) => s,
            None => put(s, (side, b), new_cell(q, at)),
        }
    }
}

/// A candle whose book is synchronised again since `at`.
pub open spec fn resumed(
    bids: Seq<(i64, i64)>,
    asks: Seq<(i64, i64)>,
    c: CandleState,
    at: u64,
) -> CandleState {
    let cells = Seq::new(
        c.cells.len(),
        |i: int|
            {
                let (key, cell) = c.cells[i];
                let q = match key.0 {
                    Side::Bid => qty_at(bids, key.1),
                    Side::Ask => qty_at(asks, key.1),
                };
                (key, CellState { qty: q, last_ts: at, ..cell })
            },
    );
    CandleState {
        live_since: Some(at),
        clean: false,
        cells: joined(joined(cells, Side::Bid, bids, at), Side::Ask, asks, at),
        ..c
    }
}

/// The state with the buckets of the rebuilt book, synchronised since `at`.
pub open spec fn resume_next(s: MetricsState, at: u64) -> MetricsState {
    let t = MetricsState {
        bid_buckets: bucketed(s.bids, s.cfg.bucket),
        ask_buckets: bucketed(s.asks, s.cfg.bucket),
        resume_pending: false,
        ..s
    };
    MetricsState {
        tracks: Seq::new(
            s.tracks.len(),
            |i: int|
                TrackState {
                    cur: resumed(t.bid_buckets, t.ask_buckets, s.tracks[i].cur, at),
                    ..s.tracks[i]
                },
        ),
        ..t
    }
}

/// The levels, the buckets, and what the batch did to each bucket so far.
#[verifier::ext_equal]
pub struct Touched {
    /// Bids by price.
    pub bids: Seq<(Px, i64)>,
    /// Asks by price.
    pub asks: Seq<(Px, i64)>,
    /// Bids by bucket.
    pub bid_buckets: Seq<(i64, i64)>,
    /// Asks by bucket.
    pub ask_buckets: Seq<(i64, i64)>,
    /// What the batch did.
    pub keys: Seq<((Side, i64), Touch)>,
}

impl Touched {
    /// The levels of a side.
    pub open spec fn levels(self, side: Side) -> Seq<(Px, i64)> {
        match side {
            Side::Bid => self.bids,
            Side::Ask => self.asks,
        }
    }

    /// The buckets of a side.
    pub open spec fn buckets(self, side: Side) -> Seq<(i64, i64)> {
        match side {
            Side::Bid => self.bid_buckets,
            Side::Ask => self.ask_buckets,
        }
    }
}

/// One more flow of the batch.
pub open spec fn touch_next(t: Touched, f: LevelFlow, width: Px) -> Touched {
    let b = bucket_of(f.px, width);
    let key = (f.side, b);
    let cur = qty_at(t.buckets(f.side), b);
    let before = match find(t.keys, key) {
        Some(e) => e,
        None => Touch {
            prev: cur,
            new: cur,
            executed: 0,
            rpi: 0,
            fills: 0,
            trades: 0,
            nv: 0,
            cm: 0,
            am: 0,
        },
    };
    let old_level = qty_at(t.levels(f.side), f.px);
    let changes = f.q1.0 != old_level;
    let new = if changes {
        clamp_i64(before.new + clamp_i64(f.q1.0 - old_level)) as i64
    } else {
        before.new
    };
    let after = Touch {
        prev: before.prev,
        new,
        executed: clamp_i64(before.executed + f.executed.0) as i64,
        rpi: clamp_i64(before.rpi + f.exec_rpi.0) as i64,
        fills: clamp_u64(before.fills + f.n_fills) as u64,
        trades: clamp_u64(before.trades + f.n_trades) as u64,
        nv: clamp_i64(before.nv + f.no_visible_min.0) as i64,
        cm: clamp_i64(before.cm + f.cancelado_min.0) as i64,
        am: clamp_i64(before.am + f.agregado_min.0) as i64,
    };
    let levels = if changes {
        with_qty(t.levels(f.side), f.px, f.q1.0)
    } else {
        t.levels(f.side)
    };
    let buckets = if changes {
        with_qty(t.buckets(f.side), b, new)
    } else {
        t.buckets(f.side)
    };
    match f.side {
        Side::Bid => Touched {
            bids: levels,
            bid_buckets: buckets,
            keys: put(t.keys, key, after),
            ..t
        },
        Side::Ask => Touched {
            asks: levels,
            ask_buckets: buckets,
            keys: put(t.keys, key, after),
            ..t
        },
    }
}

/// All the flows of the batch, in order.
pub open spec fn touch_all(t: Touched, flows: Seq<LevelFlow>, width: Px) -> Touched
    decreases flows.len(),
{
    if flows.len() == 0 {
        t
    } else {
        touch_next(touch_all(t, flows.drop_last(), width), flows.last(), width)
    }
}

/// The bucket of the mid price.
pub open spec fn mid_bucket(s: MetricsState) -> Option<i64> {
    if s.bids.len() == 0 || s.asks.len() == 0 {
        None
    } else {
        Some(
            bucket_of(Px(tdiv(s.bids.last().0.0 + s.asks[0].0.0, 2) as i64), s.cfg.bucket),
        )
    }
}

/// A value at its place among values in increasing order.
pub open spec fn inserted(s: Seq<i128>, v: i128) -> Seq<i128>
    decreases s.len(),
{
    if s.len() == 0 || s.last() <= v {
        s.push(v)
    } else {
        inserted(s.drop_last(), v).push(s.last())
    }
}

/// The values in increasing order.
pub open spec fn ascending(s: Seq<i128>) -> Seq<i128>
    decreases s.len(),
{
    if s.len() == 0 {
        s
    } else {
        inserted(ascending(s.drop_last()), s.last())
    }
}

/// The rank (from 1) of percentile `p` among `n` values: the nearest rank.
pub open spec fn nearest_rank(n: nat, p: u32) -> int {
    let r = (n * p + 99) / 100;
    if r < 1 {
        1
    } else {
        r as int
    }
}

/// The percentile of some values by nearest rank, or `none` out of range.
pub open spec fn percentile(s: Seq<i128>, p: u32, none: i128) -> i128 {
    let r = nearest_rank(s.len(), p);
    if r <= s.len() {
        ascending(s)[r - 1]
    } else {
        none
    }
}

/// The areas up to `ts` of the buckets of a side that the coverage holds whole.
pub open spec fn side_areas(
    s: MetricsState,
    cells: Seq<((Side, i64), CellState)>,
    side: Side,
    ts: u64,
    live: bool,
) -> Seq<i128>
    decreases cells.len(),
{
    if cells.len() == 0 {
        Seq::empty()
    } else {
        let v = side_areas(s, cells.drop_last(), side, ts, live);
        let (key, c) = cells.last();
        if key.0 == side && !partial(s, key.0, key.1) {
            v.push(acc_at(c, ts, live))
        } else {
            v
        }
    }
}

/// A fresh window.
pub open spec fn new_window(ts: u64, qty: i64) -> Window {
    Window { start_ts: ts, start_qty: qty, executed: 0, evaluated: false, poisoned: false }
}

/// What the detector makes of a window at the crossing: the wall, or the counter
/// of the reason it is rejected.
pub enum Verdict {
    /// The window holds a contaminated batch.
    Contaminated,
    /// The bucket is out of the coverage.
    Uncovered,
    /// There is no mid price.
    NoMid,
    /// The TWA does not reach the percentile.
    Percentile,
    /// Too far from the mid price.
    Distance,
    /// Executions explain the drop.
    Executions,
    /// A retired wall.
    Fired(WallRetired),
}

/// The distance between two buckets.
pub open spec fn gap_of(a: i64, b: i64) -> i64 {
    clamp_i64(
        if a < b {
            b - a
        } else {
            a - b
        },
    ) as i64
}

/// The verdict on window `w` of bucket `key`, with area `acc` over `obs`.
pub open spec fn verdict(
    s: MetricsState,
    c: CandleState,
    key: (Side, i64),
    w: Window,
    new: i64,
    acc: i128,
    obs: u64,
    ts: u64,
    mid: Option<i64>,
) -> Verdict {
    let thr = percentile(
        side_areas(s, c.cells, key.0, ts, c.live_since is Some),
        s.cfg.wall.percentile,
        0,
    );
    let drop = w.start_qty - new;
    if w.poisoned {
        Verdict::Contaminated
    } else if partial(s, key.0, key.1) {
        Verdict::Uncovered
    } else if mid is None {
        Verdict::NoMid
    } else if acc < thr {
        Verdict::Percentile
    } else if gap_of(key.1, mid->0) > s.cfg.wall.max_distance {
        Verdict::Distance
    } else if drop <= 0 || w.executed * 100 >= s.cfg.wall.max_exec_pct * drop {
        Verdict::Executions
    } else {
        Verdict::Fired(
            WallRetired {
                side: key.0,
                bucket: key.1,
                px_low: low_px(key.1, s.cfg.bucket),
                ts_ms: ts,
                window_start_ms: w.start_ts,
                twa: Qty(average(acc, obs)),
                percentile_twa: Qty(average(thr, obs)),
                start_qty: Qty(w.start_qty),
                qty: Qty(new),
                executed: Qty(w.executed),
                distance: gap_of(key.1, mid->0),
            },
        )
    }
}

/// The counters after a verdict.
pub open spec fn judged(c: WallStats, v: Verdict) -> WallStats {
    let e = WallStats { evaluated: inc(c.evaluated), ..c };
    match v {
        Verdict::Contaminated => WallStats {
            rejected_contaminated: inc(e.rejected_contaminated),
            ..e
        },
        Verdict::Uncovered => WallStats { rejected_coverage: inc(e.rejected_coverage), ..e },
        Verdict::NoMid => WallStats { rejected_no_mid: inc(e.rejected_no_mid), ..e },
        Verdict::Percentile => WallStats { rejected_percentile: inc(e.rejected_percentile), ..e },
        Verdict::Distance => WallStats { rejected_distance: inc(e.rejected_distance), ..e },
        Verdict::Executions => WallStats { rejected_exec: inc(e.rejected_exec), ..e },
        Verdict::Fired(w) => WallStats { fired: inc(e.fired), ..e },
    }
}

/// The walls kept after one more.
pub open spec fn walls_with(walls: Seq<WallRetired>, keep: nat, w: WallRetired) -> Seq<WallRetired> {
    if walls.len() > 0 && walls.len() == keep {
        walls.skip(1).push(w)
    } else {
        walls.push(w)
    }
}

/// The quantity of a bucket fell under `(1 - X) * TWA`.
pub open spec fn fell(new: i64, obs: u64, acc: i128, drop_pct: u32) -> bool {
    clamp_i128((new * obs) * 100) < clamp_i128((100 - drop_pct) * acc)
}

/// What the detector does when a batch touches a bucket.
pub open spec fn wall_next(
    s: MetricsState,
    wi: int,
    key: (Side, i64),
    t: Touch,
    clean: bool,
    ts: u64,
    mid: Option<i64>,
) -> MetricsState {
    let c = s.tracks[wi].cur;
    let obs = c.observed_at(ts);
    if obs == 0 {
        MetricsState { windows: del(s.windows, key), ..s }
    } else {
        let acc = match find(c.cells, key) {
            Some(cell) => acc_at(cell, ts, c.live_since is Some),
            None => 0,
        };
        let windows = if t.prev * obs >= acc {
            put(s.windows, key, new_window(ts, t.prev))
        } else {
            s.windows
        };
        if t.new * obs >= acc {
            MetricsState { windows: put(windows, key, new_window(ts, t.new)), ..s }
        } else {
            match find(windows, key) {
                None => MetricsState { windows, ..s },
                Some(w0) => {
                    let w = Window {
                        executed: clamp_i64(w0.executed + t.executed) as i64,
                        poisoned: w0.poisoned || !clean,
                        ..w0
                    };
                    if !fell(t.new, obs, acc, s.cfg.wall.drop_pct) || w.evaluated {
                        MetricsState { windows: put(windows, key, w), ..s }
                    } else {
                        let v = verdict(s, c, key, w, t.new, acc, obs, ts, mid);
                        MetricsState {
                            windows: put(windows, key, Window { evaluated: true, ..w }),
                            wall_stats: judged(s.wall_stats, v),
                            walls: match v {
                                Verdict::Fired(e) => walls_with(
                                    s.walls,
                                    s.cfg.keep_walls as nat,
                                    e,
                                ),
                                _ => s.walls,
                            },
                            ..s
                        }
                    }
                },
            }
        }
    }
}

/// The detector over all the buckets that a batch touched, in order.
pub open spec fn walls_next(
    s: MetricsState,
    wi: int,
    keys: Seq<((Side, i64), Touch)>,
    clean: bool,
    ts: u64,
    mid: Option<i64>,
) -> MetricsState
    decreases keys.len(),
{
    if keys.len() == 0 {
        s
    } else {
        let t = walls_next(s, wi, keys.drop_last(), clean, ts, mid);
        wall_next(t, wi, keys.last().0, keys.last().1, clean, ts, mid)
    }
}

/// A bucket of a candle after a batch.
pub open spec fn cell_next(c: CellState, t: Touch, ts: u64, live: bool) -> CellState {
    CellState {
        acc: acc_at(c, ts, live),
        last_ts: ts,
        qty: t.new,
        executed: clamp_i64(c.executed + t.executed) as i64,
        rpi: clamp_i64(c.rpi + t.rpi) as i64,
        fills: clamp_u64(c.fills + t.fills) as u64,
        trades: clamp_u64(c.trades + t.trades) as u64,
        nv: clamp_i64(c.nv + t.nv) as i64,
        cm: clamp_i64(c.cm + t.cm) as i64,
        am: clamp_i64(c.am + t.am) as i64,
    }
}

/// The buckets of a candle after a batch.
pub open spec fn cells_next(
    cells: Seq<((Side, i64), CellState)>,
    keys: Seq<((Side, i64), Touch)>,
    ts: u64,
    live: bool,
) -> Seq<((Side, i64), CellState)>
    decreases keys.len(),
{
    if keys.len() == 0 {
        cells
    } else {
        let s = cells_next(cells, keys.drop_last(), ts, live);
        let (key, t) = keys.last();
        let before = match find(s, key) {
            Some(c) => c,
            None => new_cell(t.prev, ts),
        };
        put(s, key, cell_next(before, t, ts, live))
    }
}

/// A candle after a batch.
pub open spec fn candle_next(
    c: CandleState,
    keys: Seq<((Side, i64), Touch)>,
    ts: u64,
) -> CandleState {
    CandleState { cells: cells_next(c.cells, keys, ts, c.live_since is Some), ..c }
}

/// The candles brought to the end of a batch, before its flows.
pub open spec fn batch_start(s: MetricsState, b: BatchInfo) -> MetricsState {
    let ts = b.end_ts_ms;
    let a = advanced(MetricsState { batch: Seq::empty(), ..s }, ts);
    let r = if a.resume_pending {
        resume_next(a, ts)
    } else {
        a
    };
    MetricsState {
        now: ts,
        tracks: if b.contaminated is None {
            r.tracks
        } else {
            Seq::new(
                r.tracks.len(),
                |i: int|
                    TrackState {
                        cur: CandleState { clean: false, ..r.tracks[i].cur },
                        ..r.tracks[i]
                    },
            )
        },
        ..r
    }
}

/// What the flows of a batch do to the levels and buckets.
pub open spec fn batch_touch(s: MetricsState, flows: Seq<LevelFlow>) -> Touched {
    touch_all(
        Touched {
            bids: s.bids,
            asks: s.asks,
            bid_buckets: s.bid_buckets,
            ask_buckets: s.ask_buckets,
            keys: Seq::empty(),
        },
        flows,
        s.cfg.bucket,
    )
}

/// What the metrics do with a closed batch.
pub open spec fn process_next(s: MetricsState, b: BatchInfo) -> MetricsState {
    if !s.live {
        MetricsState { batch: Seq::empty(), ..s }
    } else {
        let ts = b.end_ts_ms;
        let clean = b.contaminated is None;
        let p = batch_start(s, b);
        let t = batch_touch(p, s.batch);
        let q = MetricsState {
            bids: t.bids,
            asks: t.asks,
            bid_buckets: t.bid_buckets,
            ask_buckets: t.ask_buckets,
            ..p
        };
        let w = match position_from(s.cfg.timeframes_ms@, s.cfg.wall_tf_ms, 0) {
            Some(wi) => if wi < q.tracks.len() {
                walls_next(q, wi, t.keys, clean, ts, mid_bucket(q))
            } else {
                q
            },
            None => q,
        };
        MetricsState {
            tracks: Seq::new(
                w.tracks.len(),
                |i: int| TrackState { cur: candle_next(w.tracks[i].cur, t.keys, ts), ..w.tracks[i] },
            ),
            ..w
        }
    }
}

/// The raw quantities of a ladder.
pub open spec fn raw_levels(s: Seq<(Px, Qty)>) -> Seq<(Px, i64)> {
    Seq::new(s.len(), |i: int| (s[i].0, s[i].1.0))
}

/// What the metrics do when the book is rebuilt.
pub open spec fn rebuilt_next(s: MetricsState, book: BookState) -> MetricsState {
    MetricsState {
        bids: raw_levels(book.bids),
        asks: raw_levels(book.asks),
        floor: match book.coverage().bid_floor {
            Some(p) => Some(bucket_of(p, s.cfg.bucket)),
            None => None,
        },
        ceiling: match book.coverage().ask_ceiling {
            Some(p) => Some(bucket_of(p, s.cfg.bucket)),
            None => None,
        },
        rolling: book.rolling,
        live: true,
        resume_pending: true,
        batch: Seq::empty(),
        ..s
    }
}

/// What the metrics do when synchronisation is lost.
pub open spec fn invalidated_next(s: MetricsState) -> MetricsState {
    MetricsState {
        tracks: if s.live {
            Seq::new(
                s.tracks.len(),
                |i: int| TrackState { cur: paused(s.tracks[i].cur, s.now), ..s.tracks[i] },
            )
        } else {
            s.tracks
        },
        windows: if s.live {
            Seq::empty()
        } else {
            s.windows
        },
        live: false,
        resume_pending: false,
        batch: Seq::empty(),
        ..s
    }
}

/// What some candles hold.
spec fn cviews(s: Seq<Candle>) -> Seq<CandleState> {
    Seq::new(s.len(), |i: int| s[i]@)
}

/// The candles of a timeframe.
struct Track {
    cur: Candle,
    past: Vec<Candle>,
}

impl View for Track {
    type V = TrackState;

    closed spec fn view(&self) -> TrackState {
        TrackState { cur: self.cur@, past: cviews(self.past@) }
    }
}

/// What some tracks hold.
spec fn tviews(s: Seq<Track>) -> Seq<TrackState> {
    Seq::new(s.len(), |i: int| s[i]@)
}

/// Division towards zero by a positive number.
fn trunc_div(a: i128, b: u64) -> (r: i128)
    requires
        b > 0,
    ensures
        r == tdiv(a as int, b as int),
{
    let d: i128 = b as i128;
    if a < 0 {
        if a == i128::MIN {
            // The quotient of the magnitude, which does not fit in `i128`, taken in `u128`.
            let m: u128 = 0x8000_0000_0000_0000_0000_0000_0000_0000u128;
            let q: u128 = m / (b as u128);
            proof {
                lemma_floor(m as int, b as int);
            }
            if q == m {
                i128::MIN
            } else {
                -(q as i128)
            }
        } else {
            proof {
                lemma_floor(-a as int, d as int);
            }
            -((-a) / d)
        }
    } else {
        a / d
    }
}

/// An area over an observed time.
fn average_of(acc: i128, obs: u64) -> (r: i64)
    requires
        obs > 0,
    ensures
        r == average(acc, obs),
{
    to_i64(trunc_div(acc, obs))
}

/// The product of a quantity and a time.
fn area(qty: i64, ms: u64) -> (r: i128)
    ensures
        r == qty * ms,
{
    assert(-0x8000_0000_0000_0000_0000_0000_0000_0000 < qty * ms
        < 0x7fff_ffff_ffff_ffff_ffff_ffff_ffff_ffff) by (nonlinear_arith)
        requires
            -0x8000_0000_0000_0000 <= qty <= 0x7fff_ffff_ffff_ffff,
            0 <= ms <= 0xffff_ffff_ffff_ffff,
    ;
    qty as i128 * ms as i128
}

/// The area of a bucket up to `ts`.
fn area_at(c: &CellState, ts: u64, live: bool) -> (r: i128)
    ensures
        r == acc_at(*c, ts, live),
{
    if live {
        add_i128(c.acc, area(c.qty, sub_u64(ts, c.last_ts)))
    } else {
        c.acc
    }
}

/// A bucket with a quantity and nothing else yet.
fn fresh_cell(qty: i64, ts: u64) -> (r: CellState)
    ensures
        r == new_cell(qty, ts),
{
    CellState {
        acc: 0,
        last_ts: ts,
        qty,
        executed: 0,
        rpi: 0,
        fills: 0,
        trades: 0,
        nv: 0,
        cm: 0,
        am: 0,
    }
}

/// The quantity under `k`, or zero.
fn get_qty<K: SortKey>(m: &SortedMap<K, i64>, k: &K) -> (r: i64)
    ensures
        r == qty_at(m@, *k),
{
    match m.get(k) {
        Some(q) => *q,
        None => 0,
    }
}

/// Fixes one quantity (zero removes it).
fn set_qty<K: SortKey>(m: &mut SortedMap<K, i64>, k: K, q: i64)
    ensures
        final(m)@ == with_qty(old(m)@, k, q),
{
    if q == 0 {
        let _ = m.remove(&k);
    } else {
        m.insert(k, q);
    }
}

impl Candle {
    /// The observed time up to `ts`.
    fn observed_at(&self, ts: u64) -> (r: u64)
        ensures
            r == self@.observed_at(ts),
    {
        match self.live_since {
            Some(t) => add_u64(self.observed, sub_u64(ts, t)),
            None => self.observed,
        }
    }

    /// Brings the areas of the buckets up to `at`.
    fn settle(&mut self, at: u64, live: bool)
        ensures
            final(self)@ == (CandleState {
                cells: settled_cells(old(self)@.cells, at, live),
                ..old(self)@
            }),
    {
        let ghost all = self.cells@;
        let n = self.cells.len();
        let mut i: usize = 0;
        while i < n
            invariant
                i <= n == all.len(),
                all == old(self)@.cells,
                self.cells@.len() == n,
                forall|j: int| 0 <= j < i ==> self.cells@[j] == settled_cells(all, at, live)[j],
                forall|j: int| i <= j < n ==> self.cells@[j] == all[j],
                self@ == (CandleState { cells: self.cells@, ..old(self)@ }),
            decreases n - i,
        {
            let mut c = *self.cells.value_at(i);
            c.acc = area_at(&c, at, live);
            c.last_ts = at;
            self.cells.set_value_at(i, c);
            i += 1;
        }
        assert(self.cells@ =~= settled_cells(all, at, live));
    }

    /// Closes the candle at `at`.
    fn close(&mut self, at: u64)
        ensures
            final(self)@ == closed_at(old(self)@, at),
    {
        let live = self.live_since.is_some();
        self.observed = self.observed_at(at);
        self.live_since = None;
        self.settle(at, live);
    }

    /// Pauses the candle at `at`.
    fn pause(&mut self, at: u64)
        ensures
            final(self)@ == paused(old(self)@, at),
    {
        let live = self.live_since.is_some();
        self.observed = self.observed_at(at);
        self.live_since = None;
        self.clean = false;
        if live {
            self.settle(at, true);
        }
    }

    /// Adds the buckets of one side that the candle lacks.
    fn join(&mut self, side: Side, buckets: &SortedMap<i64, i64>, at: u64)
        ensures
            final(self)@ == (CandleState {
                cells: joined(old(self)@.cells, side, buckets@, at),
                ..old(self)@
            }),
    {
        let n = buckets.len();
        let mut i: usize = 0;
        assert(buckets@.take(0) =~= Seq::empty());
        while i < n
            invariant
                i <= n == buckets@.len(),
                self@ == (CandleState {
                    cells: joined(old(self)@.cells, side, buckets@.take(i as int), at),
                    ..old(self)@
                }),
            decreases n - i,
        {
            let b: i64 = *buckets.key_at(i);
            let q: i64 = *buckets.value_at(i);
            assert(buckets@.take(i + 1).drop_last() =~= buckets@.take(i as int));
            let missing = self.cells.get(&(side, b)).is_none();
            if missing {
                self.cells.insert((side, b), fresh_cell(q, at));
            }
            i += 1;
        }
        assert(buckets@.take(n as int) =~= buckets@);
    }

    /// The book is synchronised again since `at`.
    fn resume(&mut self, bids: &SortedMap<i64, i64>, asks: &SortedMap<i64, i64>, at: u64)
        ensures
            final(self)@ == resumed(bids@, asks@, old(self)@, at),
    {
        let ghost all = self.cells@;
        let ghost goal = Seq::new(
            all.len(),
            |i: int|
                {
                    let (key, cell) = all[i];
                    let q = match key.0 {
                        Side::Bid => qty_at(bids@, key.1),
                        Side::Ask => qty_at(asks@, key.1),
                    };
                    (key, CellState { qty: q, last_ts: at, ..cell })
                },
        );
        self.live_since = Some(at);
        self.clean = false;
        let n = self.cells.len();
        let mut i: usize = 0;
        while i < n
            invariant
                i <= n == all.len() == goal.len(),
                all == old(self)@.cells,
                goal == Seq::new(
                    all.len(),
                    |i: int|
                        {
                            let (key, cell) = all[i];
                            let q = match key.0 {
                                Side::Bid => qty_at(bids@, key.1),
                                Side::Ask => qty_at(asks@, key.1),
                            };
                            (key, CellState { qty: q, last_ts: at, ..cell })
                        },
                ),
                self.cells@.len() == n,
                forall|j: int| 0 <= j < i ==> self.cells@[j] == goal[j],
                forall|j: int| i <= j < n ==> self.cells@[j] == all[j],
                self@ == (CandleState {
                    live_since: Some(at),
                    clean: false,
                    cells: self.cells@,
                    ..old(self)@
                }),
            decreases n - i,
        {
            let key = *self.cells.key_at(i);
            let mut c = *self.cells.value_at(i);
            c.qty = match key.0 {
                Side::Bid => get_qty(bids, &key.1),
                Side::Ask => get_qty(asks, &key.1),
            };
            c.last_ts = at;
            self.cells.set_value_at(i, c);
            i += 1;
        }
        assert(self.cells@ =~= goal);
        self.join(Side::Bid, bids, at);
        self.join(Side::Ask, asks, at);
    }

    /// Applies what a batch did.
    fn apply(&mut self, keys: &SortedMap<(Side, i64), Touch>, ts: u64)
        ensures
            final(self)@ == candle_next(old(self)@, keys@, ts),
    {
        let live = self.live_since.is_some();
        let n = keys.len();
        let mut i: usize = 0;
        assert(keys@.take(0) =~= Seq::empty());
        while i < n
            invariant
                i <= n == keys@.len(),
                live == (old(self)@.live_since is Some),
                self@ == (CandleState {
                    cells: cells_next(old(self)@.cells, keys@.take(i as int), ts, live),
                    ..old(self)@
                }),
            decreases n - i,
        {
            let key = *keys.key_at(i);
            let t = *keys.value_at(i);
            assert(keys@.take(i + 1).drop_last() =~= keys@.take(i as int));
            let c = match self.cells.get(&key) {
                Some(c) => *c,
                None => fresh_cell(t.prev, ts),
            };
            let after = CellState {
                acc: area_at(&c, ts, live),
                last_ts: ts,
                qty: t.new,
                executed: add_i64(c.executed, t.executed),
                rpi: add_i64(c.rpi, t.rpi),
                fills: add_u64(c.fills, t.fills),
                trades: add_u64(c.trades, t.trades),
                nv: add_i64(c.nv, t.nv),
                cm: add_i64(c.cm, t.cm),
                am: add_i64(c.am, t.am),
            };
            self.cells.insert(key, after);
            i += 1;
        }
        assert(keys@.take(n as int) =~= keys@);
    }
}

/// Adds the buckets of one side to the cells of a new candle.
fn add_side(
    cells: &mut SortedMap<(Side, i64), CellState>,
    side: Side,
    buckets: &SortedMap<i64, i64>,
    ts: u64,
)
    requires
        forall|i: int| 0 <= i < old(cells)@.len() ==> (#[trigger] old(cells)@[i]).0.0 == Side::Bid,
        old(cells)@.len() > 0 ==> side == Side::Ask,
    ensures
        final(cells)@ == old(cells)@ + side_cells(side, buckets@, ts),
{
    let ghost base = cells@;
    let n = buckets.len();
    let mut i: usize = 0;
    while i < n
        invariant
            i <= n == buckets@.len(),
            sorted(buckets@),
            base == old(cells)@,
            forall|i: int| 0 <= i < base.len() ==> (#[trigger] base[i]).0.0 == Side::Bid,
            base.len() > 0 ==> side == Side::Ask,
            cells@ == base + side_cells(side, buckets@, ts).take(i as int),
        decreases n - i,
    {
        let b: i64 = *buckets.key_at(i);
        let q: i64 = *buckets.value_at(i);
        let c = fresh_cell(q, ts);
        proof {
            let s = cells@;
            let k = (side, b);
            assert forall|j: int| 0 <= j < s.len() implies crate::ordmap::key_lt(
                #[trigger] s[j].0,
                k,
            ) by {
                if j < base.len() {
                    assert(s[j] == base[j]);
                } else {
                    let m = j - base.len();
                    assert(s[j] == side_cells(side, buckets@, ts)[m]);
                    assert(crate::ordmap::key_lt(buckets@[m].0, buckets@[i as int].0));
                }
            }
            crate::ordmap::lemma_append(s, k, c);
            assert(base + side_cells(side, buckets@, ts).take(i + 1) =~= s.push((k, c)));
        }
        cells.insert((side, b), c);
        i += 1;
    }
    assert(side_cells(side, buckets@, ts).take(n as int) =~= side_cells(side, buckets@, ts));
}

/// A new candle with the present quantities.
fn open_candle(
    bids: &SortedMap<i64, i64>,
    asks: &SortedMap<i64, i64>,
    tf: u64,
    start: u64,
    live_at: Option<u64>,
) -> (r: Candle)
    ensures
        r@ == opened(bids@, asks@, tf, start, live_at),
{
    let ts = match live_at {
        Some(t) => t,
        None => start,
    };
    let mut cells: SortedMap<(Side, i64), CellState> = SortedMap::new();
    add_side(&mut cells, Side::Bid, bids, ts);
    assert(cells@ =~= side_cells(Side::Bid, bids@, ts));
    add_side(&mut cells, Side::Ask, asks, ts);
    let clean = match live_at {
        Some(t) => t == start,
        None => false,
    };
    Candle {
        tf,
        start,
        end: add_u64(start, tf),
        observed: 0,
        live_since: live_at,
        clean,
        cells,
    }
}

impl Track {
    /// Closes the candles that ended by `ts` and opens the next ones.
    fn roll(&mut self, bids: &SortedMap<i64, i64>, asks: &SortedMap<i64, i64>, keep: usize, ts: u64)
        ensures
            final(self)@ == rolled(bids@, asks@, keep as nat, old(self)@, ts),
    {
        let ghost goal = rolled(bids@, asks@, keep as nat, old(self)@, ts);
        while ts >= self.cur.end && self.cur.end < u64::MAX && self.cur.tf > 0
            invariant
                rolled(bids@, asks@, keep as nat, self@, ts) == goal,
            decreases u64::MAX - self@.cur.end,
        {
            let ghost before = self@;
            let ghost past0 = self.past@;
            let end = self.cur.end;
            let live_at: Option<u64> = if self.cur.live_since.is_some() {
                Some(end)
            } else {
                None
            };
            let mut c = open_candle(bids, asks, self.cur.tf, end, live_at);
            core::mem::swap(&mut c, &mut self.cur);
            c.close(end);
            self.past.push(c);
            assert(cviews(self.past@) =~= cviews(past0).push(closed_at(before.cur, end)));
            self.keep_last(keep);
            assert(self@ == (TrackState {
                cur: opened(bids@, asks@, before.cur.tf, end, live_at),
                past: last_n(before.past.push(closed_at(before.cur, end)), keep as nat),
            }));
        }
    }

    /// Cuts the closed candles to the last `keep`.
    fn keep_last(&mut self, keep: usize)
        ensures
            final(self)@ == (TrackState {
                past: last_n(old(self)@.past, keep as nat),
                ..old(self)@
            }),
    {
        let ghost all = self.past@;
        let ghost mut gone: int = 0;
        assert(all.skip(0) =~= all);
        while self.past.len() > keep
            invariant
                0 <= gone <= all.len(),
                self.past@ == all.skip(gone),
                gone > 0 ==> all.len() - gone >= keep,
                self@ == (TrackState { past: cviews(self.past@), ..old(self)@ }),
                all == old(self).past@,
            decreases self.past@.len(),
        {
            let _ = self.past.remove(0);
            proof {
                assert(all.skip(gone).remove(0) =~= all.skip(gone + 1));
                gone = gone + 1;
            }
        }
        proof {
            assert(cviews(all.skip(gone)) =~= cviews(all).skip(gone));
            if gone == 0 {
                assert(last_n(cviews(all), keep as nat) =~= cviews(all));
            } else {
                assert(last_n(cviews(all), keep as nat) =~= cviews(all).skip(gone));
            }
        }
    }
}

/// A bucket of a candle, to be shown.
#[derive(Debug, Clone, Copy, PartialEq, Eq, Structural)]
pub struct CellView {
    /// Side.
    pub side: Side,
    /// Bucket.
    pub bucket: i64,
    /// Lower price of the bucket.
    pub px_low: Px,
    /// TWA in the candle.
    pub twa: Qty,
    /// Quantity at the close (or now, if the candle is open).
    pub qty: Qty,
    /// Executed against this side.
    pub executed: Qty,
    /// Executed against hidden retail orders.
    pub exec_rpi: Qty,
    /// Fills.
    pub n_fills: u64,
    /// Aggregated trades.
    pub n_trades: u64,
    /// Sum of the lower bounds of what was not visible.
    pub no_visible_min: Qty,
    /// Sum of the lower bounds of what was cancelled.
    pub cancelado_min: Qty,
    /// Sum of the lower bounds of what was added.
    pub agregado_min: Qty,
    /// At least partly out of the coverage.
    pub partial: bool,
    /// Short candles only: TWA of the bucket in the long candle closed before.
    pub twa_ref: Option<Qty>,
    /// Short candles only: the reading.
    pub liquidity: Option<Liquidity>,
}

/// A candle, to be shown.
#[derive(Debug, Clone)]
pub struct CandleView {
    /// Timeframe (ms).
    pub tf_ms: u64,
    /// Start (exchange ms, aligned to the timeframe).
    pub start_ms: u64,
    /// End, exclusive.
    pub end_ms: u64,
    /// Time with a synchronised book (ms).
    pub observed_ms: u64,
    /// `false` if synchronisation was lost or a batch was contaminated.
    pub clean: bool,
    /// Executed by buyers (against asks).
    pub buy_exec: Qty,
    /// Executed by sellers (against bids).
    pub sell_exec: Qty,
    /// Buys less sells.
    pub delta: Qty,
    /// Short candles only: start of the long candle of reference.
    pub ref_start_ms: Option<u64>,
    /// The buckets, by side and bucket.
    pub cells: Vec<CellView>,
}

/// What a [`CandleView`] shows.
#[verifier::ext_equal]
pub struct CandleShow {
    /// Timeframe (ms).
    pub tf_ms: u64,
    /// Start.
    pub start_ms: u64,
    /// End, exclusive.
    pub end_ms: u64,
    /// Time with a synchronised book (ms).
    pub observed_ms: u64,
    /// Synchronised all along, with no contaminated batch.
    pub clean: bool,
    /// Executed by buyers.
    pub buy_exec: Qty,
    /// Executed by sellers.
    pub sell_exec: Qty,
    /// Buys less sells.
    pub delta: Qty,
    /// Start of the long candle of reference.
    pub ref_start_ms: Option<u64>,
    /// The buckets.
    pub cells: Seq<CellView>,
}

impl View for CandleView {
    type V = CandleShow;

    open spec fn view(&self) -> CandleShow {
        CandleShow {
            tf_ms: self.tf_ms,
            start_ms: self.start_ms,
            end_ms: self.end_ms,
            observed_ms: self.observed_ms,
            clean: self.clean,
            buy_exec: self.buy_exec,
            sell_exec: self.sell_exec,
            delta: self.delta,
            ref_start_ms: self.ref_start_ms,
            cells: self.cells@,
        }
    }
}

/// What some candle views show.
pub open spec fn shows(s: Seq<CandleView>) -> Seq<CandleShow> {
    Seq::new(s.len(), |i: int| s[i]@)
}

/// Everything the metrics show.
#[derive(Debug, Clone)]
pub struct MetricsView {
    /// Last instant processed (exchange ms).
    pub now_ms: u64,
    /// Candles in progress per timeframe.
    pub current: Vec<CandleView>,
    /// Recent closed candles per timeframe (newest last).
    pub closed: Vec<Vec<CandleView>>,
    /// Recent walls (newest last).
    pub walls: Vec<WallRetired>,
    /// Counters of the detector.
    pub wall_stats: WallStats,
    /// Bids at or below this bucket are unknown.
    pub bid_floor_bucket: Option<i64>,
    /// Asks at or above this bucket are unknown.
    pub ask_ceiling_bucket: Option<i64>,
}

/// What a [`MetricsView`] shows.
#[verifier::ext_equal]
pub struct MetricsShow {
    /// Last instant processed.
    pub now_ms: u64,
    /// Candles in progress.
    pub current: Seq<CandleShow>,
    /// Closed candles.
    pub closed: Seq<Seq<CandleShow>>,
    /// Walls.
    pub walls: Seq<WallRetired>,
    /// Counters of the detector.
    pub wall_stats: WallStats,
    /// Floor.
    pub bid_floor_bucket: Option<i64>,
    /// Ceiling.
    pub ask_ceiling_bucket: Option<i64>,
}

impl View for MetricsView {
    type V = MetricsShow;

    open spec fn view(&self) -> MetricsShow {
        MetricsShow {
            now_ms: self.now_ms,
            current: shows(self.current@),
            closed: Seq::new(self.closed@.len(), |i: int| shows(self.closed@[i]@)),
            walls: self.walls@,
            wall_stats: self.wall_stats,
            bid_floor_bucket: self.bid_floor_bucket,
            ask_ceiling_bucket: self.ask_ceiling_bucket,
        }
    }
}

impl Default for MetricsView {
    /// Nothing to show.
    fn default() -> (r: Self)
        ensures
            r@ == (MetricsShow {
                now_ms: 0,
                current: Seq::empty(),
                closed: Seq::empty(),
                walls: Seq::empty(),
                wall_stats: WallStats::zero(),
                bid_floor_bucket: None,
                ask_ceiling_bucket: None,
            }),
    {
        let r = MetricsView {
            now_ms: 0,
            current: Vec::new(),
            closed: Vec::new(),
            walls: Vec::new(),
            wall_stats: WallStats::default(),
            bid_floor_bucket: None,
            ask_ceiling_bucket: None,
        };
        assert(r@.current =~= Seq::empty());
        assert(r@.closed =~= Seq::empty());
        r
    }
}

/// The reference of short candles: TWA per bucket of a closed long candle, and the
/// threshold that makes a TWA high on each side.
#[verifier::ext_equal]
pub struct Reference {
    /// TWA per bucket.
    pub twa: Seq<((Side, i64), i64)>,
    /// Threshold of the bids.
    pub bid_thr: i64,
    /// Threshold of the asks.
    pub ask_thr: i64,
}

/// The first candle with this start, from `i` on.
pub open spec fn starting_at(past: Seq<CandleState>, start: u64, i: int) -> Option<CandleState>
    decreases past.len() - i,
{
    if i >= past.len() {
        None
    } else if past[i].start == start {
        Some(past[i])
    } else {
        starting_at(past, start, i + 1)
    }
}

/// The TWA of each bucket of a closed candle.
pub open spec fn averages(c: CandleState) -> Seq<((Side, i64), i64)> {
    Seq::new(c.cells.len(), |i: int| (c.cells[i].0, average(c.cells[i].1.acc, c.observed)))
}

/// The TWAs of a side that the coverage holds whole.
pub open spec fn side_averages(
    s: MetricsState,
    twa: Seq<((Side, i64), i64)>,
    side: Side,
) -> Seq<i128>
    decreases twa.len(),
{
    if twa.len() == 0 {
        Seq::empty()
    } else {
        let v = side_averages(s, twa.drop_last(), side);
        let (key, t) = twa.last();
        if key.0 == side && !partial(s, key.0, key.1) {
            v.push(t as i128)
        } else {
            v
        }
    }
}

/// The reference that starts at `start`, if that long candle closed and was observed.
pub open spec fn reference(s: MetricsState, start: u64) -> Option<Reference> {
    let tc = s.cfg.tactical;
    match position_from(s.cfg.timeframes_ms@, tc.long_tf_ms, 0) {
        None => None,
        Some(li) => if li >= s.tracks.len() {
            None
        } else {
            match starting_at(s.tracks[li].past, start, 0) {
                None => None,
                Some(c) => if c.observed == 0 {
                    None
                } else {
                    let twa = averages(c);
                    Some(
                        Reference {
                            twa,
                            bid_thr: percentile(
                                side_averages(s, twa, Side::Bid),
                                tc.high_percentile,
                                i64::MAX as i128,
                            ) as i64,
                            ask_thr: percentile(
                                side_averages(s, twa, Side::Ask),
                                tc.high_percentile,
                                i64::MAX as i128,
                            ) as i64,
                        },
                    )
                },
            }
        },
    }
}

/// The reading of a bucket whose reference TWA is `ref_twa`.
pub open spec fn reading(tc: TacticalConfig, twa: i64, ref_twa: i64, thr: i64) -> Option<
    Liquidity,
> {
    if ref_twa <= 0 {
        if twa > 0 {
            Some(Liquidity::Tactica)
        } else {
            None
        }
    } else if twa * 100 > tc.approx_high_pct * ref_twa {
        Some(Liquidity::Tactica)
    } else if twa * 100 < tc.approx_low_pct * ref_twa {
        Some(Liquidity::Desarmandose)
    } else if ref_twa >= thr {
        Some(Liquidity::Estructural)
    } else {
        Some(Liquidity::Estable)
    }
}

/// Where the long candle of reference of a candle starts: the one before the long
/// candle that holds it.
pub open spec fn ref_start(tc: TacticalConfig, c: CandleState) -> Option<u64> {
    let base = (c.start / tc.long_tf_ms) * tc.long_tf_ms;
    if c.tf == tc.short_tf_ms && base >= tc.long_tf_ms {
        Some((base - tc.long_tf_ms) as u64)
    } else {
        None
    }
}

/// The TWA of a bucket at `at`.
pub open spec fn twa_at(c: CandleState, cell: CellState, at: u64) -> i64 {
    let obs = c.observed_at(at);
    if obs > 0 {
        average(acc_at(cell, at, c.live_since is Some), obs)
    } else {
        0
    }
}

/// A bucket as it is shown.
pub open spec fn cell_show(
    s: MetricsState,
    c: CandleState,
    key: (Side, i64),
    cell: CellState,
    at: u64,
    r: Option<Reference>,
) -> CellView {
    let twa = twa_at(c, cell, at);
    CellView {
        side: key.0,
        bucket: key.1,
        px_low: low_px(key.1, s.cfg.bucket),
        twa: Qty(twa),
        qty: Qty(cell.qty),
        executed: Qty(cell.executed),
        exec_rpi: Qty(cell.rpi),
        n_fills: cell.fills,
        n_trades: cell.trades,
        no_visible_min: Qty(cell.nv),
        cancelado_min: Qty(cell.cm),
        agregado_min: Qty(cell.am),
        partial: partial(s, key.0, key.1),
        twa_ref: match r {
            Some(r) => Some(Qty(qty_at(r.twa, key))),
            None => None,
        },
        liquidity: match r {
            Some(r) => reading(
                s.cfg.tactical,
                twa,
                qty_at(r.twa, key),
                match key.0 {
                    Side::Bid => r.bid_thr,
                    Side::Ask => r.ask_thr,
                },
            ),
            None => None,
        },
    }
}

/// Executed against one side.
pub open spec fn side_executed(cells: Seq<((Side, i64), CellState)>, side: Side) -> i64
    decreases cells.len(),
{
    if cells.len() == 0 {
        0
    } else {
        let n = side_executed(cells.drop_last(), side);
        if cells.last().0.0 == side {
            clamp_i64(n + cells.last().1.executed) as i64
        } else {
            n
        }
    }
}

/// The reference of a candle.
pub open spec fn reference_of(s: MetricsState, c: CandleState) -> Option<Reference> {
    match ref_start(s.cfg.tactical, c) {
        Some(t) => reference(s, t),
        None => None,
    }
}

/// A candle as it is shown at `at`.
pub open spec fn candle_show(s: MetricsState, c: CandleState, at: u64) -> CandleShow {
    let r = reference_of(s, c);
    let buy = side_executed(c.cells, Side::Ask);
    let sell = side_executed(c.cells, Side::Bid);
    CandleShow {
        tf_ms: c.tf,
        start_ms: c.start,
        end_ms: c.end,
        observed_ms: c.observed_at(at),
        clean: c.clean,
        buy_exec: Qty(buy),
        sell_exec: Qty(sell),
        delta: Qty(clamp_i64(buy - sell) as i64),
        ref_start_ms: if r is Some {
            ref_start(s.cfg.tactical, c)
        } else {
            None
        },
        cells: Seq::new(
            c.cells.len(),
            |i: int| cell_show(s, c, c.cells[i].0, c.cells[i].1, at, r),
        ),
    }
}

/// The last `n` closed candles of a track as they are shown.
pub open spec fn past_show(s: MetricsState, past: Seq<CandleState>, n: nat) -> Seq<CandleShow> {
    let l = last_n(past, n);
    Seq::new(l.len(), |i: int| candle_show(s, l[i], l[i].end))
}

/// Everything shown, with `n` closed candles per timeframe.
pub open spec fn metrics_show(s: MetricsState, n: nat) -> MetricsShow {
    MetricsShow {
        now_ms: s.now,
        current: Seq::new(s.tracks.len(), |i: int| candle_show(s, s.tracks[i].cur, s.now)),
        closed: if s.tracks.len() == 0 {
            Seq::new(s.cfg.timeframes_ms@.len(), |i: int| Seq::empty())
        } else {
            Seq::new(s.tracks.len(), |i: int| past_show(s, s.tracks[i].past, n))
        },
        walls: s.walls,
        wall_stats: s.wall_stats,
        bid_floor_bucket: floor_at(s),
        ask_ceiling_bucket: ceiling_at(s),
    }
}

/// The first track of a timeframe, from `i` on.
pub open spec fn track_of(tracks: Seq<TrackState>, tf: u64, i: int) -> Option<CandleState>
    decreases tracks.len() - i,
{
    if i >= tracks.len() {
        None
    } else if tracks[i].cur.tf == tf {
        Some(tracks[i].cur)
    } else {
        track_of(tracks, tf, i + 1)
    }
}

/// What [`Metrics::twa`] returns.
pub open spec fn twa_now(s: MetricsState, tf: u64, side: Side, bucket: i64) -> Option<Qty> {
    match track_of(s.tracks, tf, 0) {
        None => None,
        Some(c) => match find(c.cells, (side, bucket)) {
            None => None,
            Some(cell) => if c.observed_at(s.now) > 0 {
                Some(Qty(twa_at(c, cell, s.now)))
            } else {
                None
            },
        },
    }
}

/// Parameters known to be valid.
struct Checked {
    cfg: MetricsConfig,
}

impl Checked {
    #[verifier::type_invariant]
    spec fn ok(self) -> bool {
        self.cfg.valid()
    }
}

/// Puts a value at its place among values in increasing order.
fn insert_sorted(v: &mut Vec<i128>, x: i128)
    ensures
        final(v)@ == inserted(old(v)@, x),
{
    let ghost all = v@;
    let mut p: usize = v.len();
    assert(all.take(p as int) =~= all);
    assert(all.skip(p as int) =~= Seq::empty());
    assert(inserted(all, x) =~= inserted(all, x) + all.skip(p as int));
    while p > 0 && v[p - 1] > x
        invariant
            p <= v@.len(),
            v@ == all,
            inserted(all, x) == inserted(all.take(p as int), x) + all.skip(p as int),
        decreases p,
    {
        proof {
            let t = all.take(p as int);
            assert(t.drop_last() =~= all.take(p - 1));
            assert(inserted(t, x) == inserted(t.drop_last(), x).push(t.last()));
            assert(inserted(all.take(p - 1), x).push(all[p - 1]) + all.skip(p as int) =~= inserted(
                all.take(p - 1),
                x,
            ) + all.skip(p - 1));
        }
        p -= 1;
    }
    proof {
        let t = all.take(p as int);
        assert(inserted(t, x) == t.push(x));
        assert(all.insert(p as int, x) =~= t.push(x) + all.skip(p as int));
    }
    v.insert(p, x);
}

/// The percentile by nearest rank of values in increasing order.
fn percentile_of(v: &Vec<i128>, p: u32, none: i128) -> (r: i128)
    ensures
        r == (if nearest_rank(v@.len(), p) <= v@.len() {
            v@[nearest_rank(v@.len(), p) - 1]
        } else {
            none
        }),
{
    let n: u128 = v.len() as u128;
    assert(n * p <= 0xffff_ffff_ffff_ffff * 0xffff_ffff) by (nonlinear_arith)
        requires
            0 <= n <= 0xffff_ffff_ffff_ffff,
            0 <= p <= 0xffff_ffff,
    ;
    let r: u128 = (n * p as u128 + 99) / 100;
    let rank: u128 = if r < 1 {
        1
    } else {
        r
    };
    if rank <= n {
        v[(rank - 1) as usize]
    } else {
        none
    }
}

/// Metrics engine.
pub struct Metrics {
    cfg: Checked,
    bids: SortedMap<Px, i64>,
    asks: SortedMap<Px, i64>,
    bid_buckets: SortedMap<i64, i64>,
    ask_buckets: SortedMap<i64, i64>,
    floor: Option<i64>,
    ceiling: Option<i64>,
    rolling: bool,
    tracks: Vec<Track>,
    windows: SortedMap<(Side, i64), Window>,
    batch: Vec<LevelFlow>,
    live: bool,
    resume_pending: bool,
    now: u64,
    walls: Vec<WallRetired>,
    wall_stats: WallStats,
}

/// The raw quantities of a ladder.
fn raw_of(m: &SortedMap<Px, Qty>) -> (r: SortedMap<Px, i64>)
    ensures
        r@ == raw_levels(m@),
{
    let mut r: SortedMap<Px, i64> = SortedMap::new();
    let n = m.len();
    let mut i: usize = 0;
    while i < n
        invariant
            i <= n == m@.len(),
            sorted(m@),
            r@ == raw_levels(m@).take(i as int),
        decreases n - i,
    {
        let p = *m.key_at(i);
        let q = m.value_at(i).0;
        proof {
            let s = r@;
            assert forall|j: int| 0 <= j < s.len() implies crate::ordmap::key_lt(
                #[trigger] s[j].0,
                p,
            ) by {
                assert(s[j].0 == m@[j].0);
            }
            crate::ordmap::lemma_append(s, p, q);
            assert(raw_levels(m@).take(i + 1) =~= s.push((p, q)));
        }
        r.insert(p, q);
        i += 1;
    }
    assert(raw_levels(m@).take(n as int) =~= raw_levels(m@));
    r
}

impl Metrics {
    /// What the engine holds.
    pub closed spec fn content(&self) -> MetricsState {
        MetricsState {
            cfg: self.cfg.cfg,
            bids: self.bids@,
            asks: self.asks@,
            bid_buckets: self.bid_buckets@,
            ask_buckets: self.ask_buckets@,
            floor: self.floor,
            ceiling: self.ceiling,
            rolling: self.rolling,
            tracks: tviews(self.tracks@),
            windows: self.windows@,
            batch: self.batch@,
            live: self.live,
            resume_pending: self.resume_pending,
            now: self.now,
            walls: self.walls@,
            wall_stats: self.wall_stats,
        }
    }

    /// A new engine (idle until the book is first rebuilt).
    pub fn new(cfg: MetricsConfig) -> (r: Self)
        requires
            cfg.valid(),
        ensures
            r.content() == metrics_start(cfg),
    {
        let r = Metrics {
            cfg: Checked { cfg },
            bids: SortedMap::new(),
            asks: SortedMap::new(),
            bid_buckets: SortedMap::new(),
            ask_buckets: SortedMap::new(),
            floor: None,
            ceiling: None,
            rolling: false,
            tracks: Vec::new(),
            windows: SortedMap::new(),
            batch: Vec::new(),
            live: false,
            resume_pending: false,
            now: 0,
            walls: Vec::new(),
            wall_stats: WallStats::default(),
        };
        assert(r.content() =~= metrics_start(cfg));
        r
    }

    /// Counters of the detector.
    pub fn wall_stats(&self) -> (r: &WallStats)
        ensures
            *r == self.content().wall_stats,
    {
        &self.wall_stats
    }

    /// Recent walls, newest last.
    pub fn walls(&self) -> (r: &Vec<WallRetired>)
        ensures
            r@ == self.content().walls,
    {
        &self.walls
    }

    /// Last instant processed.
    pub fn now_ms(&self) -> (r: u64)
        ensures
            r == self.content().now,
    {
        self.now
    }

    /// The position of a timeframe.
    fn position(&self, tf: u64) -> (r: Option<usize>)
        ensures
            match r {
                Some(i) => position_from(self.content().cfg.timeframes_ms@, tf, 0) == Some(
                    i as int,
                ),
                None => position_from(self.content().cfg.timeframes_ms@, tf, 0) is None,
            },
    {
        let tfs = &self.cfg.cfg.timeframes_ms;
        let mut i: usize = 0;
        while i < tfs.len()
            invariant
                i <= tfs@.len(),
                tfs@ == self.content().cfg.timeframes_ms@,
                position_from(tfs@, tf, 0) == position_from(tfs@, tf, i as int),
            decreases tfs@.len() - i,
        {
            if tfs[i] == tf {
                return Some(i);
            }
            i += 1;
        }
        None
    }

    /// The TWA of a bucket in the candle in progress of timeframe `tf`.
    pub fn twa(&self, tf: u64, side: Side, bucket: i64) -> (r: Option<Qty>)
        ensures
            r == twa_now(self.content(), tf, side, bucket),
    {
        let mut i: usize = 0;
        while i < self.tracks.len()
            invariant
                i <= self.tracks@.len(),
                track_of(tviews(self.tracks@), tf, 0) == track_of(
                    tviews(self.tracks@),
                    tf,
                    i as int,
                ),
            decreases self.tracks@.len() - i,
        {
            let c = &self.tracks[i].cur;
            if c.tf == tf {
                let obs = c.observed_at(self.now);
                return match c.cells.get(&(side, bucket)) {
                    None => None,
                    Some(cell) => if obs > 0 {
                        Some(
                            Qty(
                                average_of(
                                    area_at(cell, self.now, c.live_since.is_some()),
                                    obs,
                                ),
                            ),
                        )
                    } else {
                        None
                    },
                };
            }
            i += 1;
        }
        None
    }

    /// The bucket of a price.
    fn bucket(&self, px: Px) -> (r: i64)
        ensures
            r == bucket_of(px, self.content().cfg.bucket),
    {
        proof {
            use_type_invariant(&self.cfg);
        }
        px.bucket(self.cfg.cfg.bucket)
    }

    /// The lower price of a bucket.
    fn low(&self, bucket: i64) -> (r: Px)
        ensures
            r == low_px(bucket, self.content().cfg.bucket),
    {
        let w: i64 = self.cfg.cfg.bucket.0;
        assert(-0x4000_0000_0000_0000_0000_0000_0000_0000 <= bucket * w
            <= 0x4000_0000_0000_0000_0000_0000_0000_0000) by (nonlinear_arith)
            requires
                -0x8000_0000_0000_0000 <= bucket <= 0x7fff_ffff_ffff_ffff,
                -0x8000_0000_0000_0000 <= w <= 0x7fff_ffff_ffff_ffff,
        ;
        Px(to_i64(bucket as i128 * w as i128))
    }

    /// The floor at this instant.
    fn floor_bucket(&self) -> (r: Option<i64>)
        ensures
            r == floor_at(self.content()),
    {
        if self.rolling {
            if self.bids.is_empty() {
                None
            } else {
                Some(self.bucket(*self.bids.key_at(0)))
            }
        } else {
            self.floor
        }
    }

    /// The ceiling at this instant.
    fn ceiling_bucket(&self) -> (r: Option<i64>)
        ensures
            r == ceiling_at(self.content()),
    {
        if self.rolling {
            let n = self.asks.len();
            if n == 0 {
                None
            } else {
                Some(self.bucket(*self.asks.key_at(n - 1)))
            }
        } else {
            self.ceiling
        }
    }

    /// Whether the bucket is at least partly out of the coverage.
    fn is_partial(&self, side: Side, b: i64) -> (r: bool)
        ensures
            r == partial(self.content(), side, b),
    {
        match side {
            Side::Bid => match self.floor_bucket() {
                Some(f) => b <= f,
                None => false,
            },
            Side::Ask => match self.ceiling_bucket() {
                Some(c) => b >= c,
                None => false,
            },
        }
    }

    /// Moves the candles on to instant `ts`.
    fn advance_to(&mut self, ts: u64)
        ensures
            final(self).content() == advanced(old(self).content(), ts),
    {
        let ghost s = old(self).content();
        if self.tracks.len() == 0 {
            let live_at: Option<u64> = if self.live {
                Some(ts)
            } else {
                None
            };
            let n = self.cfg.cfg.timeframes_ms.len();
            let mut i: usize = 0;
            while i < n
                invariant
                    i <= n == s.cfg.timeframes_ms@.len(),
                    s == old(self).content(),
                    s.tracks.len() == 0,
                    live_at == (if s.live {
                        Some(ts)
                    } else {
                        None::<u64>
                    }),
                    tviews(self.tracks@) == advanced(s, ts).tracks.take(i as int),
                    self.content() == (MetricsState { tracks: tviews(self.tracks@), ..s }),
                decreases n - i,
            {
                proof {
                    use_type_invariant(&self.cfg);
                }
                let ghost before = self.tracks@;
                let tf: u64 = self.cfg.cfg.timeframes_ms[i];
                let q: u64 = ts / tf;
                proof {
                    lemma_floor(ts as int, tf as int);
                }
                let mut c = open_candle(
                    &self.bid_buckets,
                    &self.ask_buckets,
                    tf,
                    q * tf,
                    live_at,
                );
                c.clean = false;
                let t = Track { cur: c, past: Vec::new() };
                assert(cviews(t.past@) =~= Seq::empty());
                self.tracks.push(t);
                assert(tviews(self.tracks@) =~= tviews(before).push(t@));
                assert(advanced(s, ts).tracks.take(i + 1) =~= tviews(before).push(t@));
                i += 1;
            }
            assert(advanced(s, ts).tracks.take(n as int) =~= advanced(s, ts).tracks);
        } else {
            let n = self.tracks.len();
            let keep = self.cfg.cfg.keep_closed;
            let mut i: usize = 0;
            while i < n
                invariant
                    i <= n == s.tracks.len() == self.tracks@.len(),
                    s == old(self).content(),
                    n > 0,
                    keep == s.cfg.keep_closed,
                    forall|j: int|
                        0 <= j < i ==> (#[trigger] self.tracks@[j])@ == advanced(s, ts).tracks[j],
                    forall|j: int| i <= j < n ==> (#[trigger] self.tracks@[j])@ == s.tracks[j],
                    self.content() == (MetricsState { tracks: tviews(self.tracks@), ..s }),
                decreases n - i,
            {
                self.tracks[i].roll(&self.bid_buckets, &self.ask_buckets, keep, ts);
                i += 1;
            }
            assert(tviews(self.tracks@) =~= advanced(s, ts).tracks);
        }
    }

    /// Pauses every candle.
    fn pause(&mut self, at: u64)
        ensures
            final(self).content() == (MetricsState {
                tracks: Seq::new(
                    old(self).content().tracks.len(),
                    |i: int|
                        TrackState {
                            cur: paused(old(self).content().tracks[i].cur, at),
                            ..old(self).content().tracks[i]
                        },
                ),
                windows: Seq::empty(),
                ..old(self).content()
            }),
    {
        let ghost s = old(self).content();
        let ghost goal = Seq::new(
            s.tracks.len(),
            |i: int| TrackState { cur: paused(s.tracks[i].cur, at), ..s.tracks[i] },
        );
        let n = self.tracks.len();
        let mut i: usize = 0;
        while i < n
            invariant
                i <= n == s.tracks.len() == self.tracks@.len(),
                s == old(self).content(),
                goal == Seq::new(
                    s.tracks.len(),
                    |i: int| TrackState { cur: paused(s.tracks[i].cur, at), ..s.tracks[i] },
                ),
                forall|j: int| 0 <= j < i ==> (#[trigger] self.tracks@[j])@ == goal[j],
                forall|j: int| i <= j < n ==> (#[trigger] self.tracks@[j])@ == s.tracks[j],
                self.content() == (MetricsState { tracks: tviews(self.tracks@), ..s }),
            decreases n - i,
        {
            self.tracks[i].cur.pause(at);
            i += 1;
        }
        assert(tviews(self.tracks@) =~= goal);
        self.windows.clear();
    }

    /// The quantities per bucket of some levels.
    fn buckets_of(&self, levels: &SortedMap<Px, i64>) -> (r: SortedMap<i64, i64>)
        ensures
            r@ == bucketed(levels@, self.content().cfg.bucket),
    {
        let mut r: SortedMap<i64, i64> = SortedMap::new();
        let n = levels.len();
        let mut i: usize = 0;
        assert(levels@.take(0) =~= Seq::empty());
        while i < n
            invariant
                i <= n == levels@.len(),
                r@ == bucketed(levels@.take(i as int), self.content().cfg.bucket),
            decreases n - i,
        {
            let b: i64 = self.bucket(*levels.key_at(i));
            let q: i64 = *levels.value_at(i);
            assert(levels@.take(i + 1).drop_last() =~= levels@.take(i as int));
            let sum: i64 = add_i64(get_qty(&r, &b), q);
            r.insert(b, sum);
            i += 1;
        }
        assert(levels@.take(n as int) =~= levels@);
        r
    }

    /// The book is synchronised again since `at`.
    fn resume(&mut self, at: u64)
        ensures
            final(self).content() == resume_next(old(self).content(), at),
    {
        let ghost s = old(self).content();
        let ghost goal = resume_next(s, at).tracks;
        self.bid_buckets = self.buckets_of(&self.bids);
        self.ask_buckets = self.buckets_of(&self.asks);
        self.resume_pending = false;
        let ghost t = self.content();
        let n = self.tracks.len();
        let mut i: usize = 0;
        while i < n
            invariant
                i <= n == s.tracks.len() == self.tracks@.len(),
                goal == resume_next(s, at).tracks,
                t.bid_buckets == bucketed(s.bids, s.cfg.bucket),
                t.ask_buckets == bucketed(s.asks, s.cfg.bucket),
                forall|j: int| 0 <= j < i ==> (#[trigger] self.tracks@[j])@ == goal[j],
                forall|j: int| i <= j < n ==> (#[trigger] self.tracks@[j])@ == s.tracks[j],
                self.content() == (MetricsState { tracks: tviews(self.tracks@), ..t }),
            decreases n - i,
        {
            self.tracks[i].cur.resume(&self.bid_buckets, &self.ask_buckets, at);
            i += 1;
        }
        assert(tviews(self.tracks@) =~= goal);
    }

    /// One more flow of the batch.
    fn touch(&mut self, keys: &mut SortedMap<(Side, i64), Touch>, f: &LevelFlow)
        ensures
            ({
                let s = old(self).content();
                let t = touch_next(
                    Touched {
                        bids: s.bids,
                        asks: s.asks,
                        bid_buckets: s.bid_buckets,
                        ask_buckets: s.ask_buckets,
                        keys: old(keys)@,
                    },
                    *f,
                    s.cfg.bucket,
                );
                &&& final(self).content() == (MetricsState {
                    bids: t.bids,
                    asks: t.asks,
                    bid_buckets: t.bid_buckets,
                    ask_buckets: t.ask_buckets,
                    ..s
                })
                &&& final(keys)@ == t.keys
            }),
    {
        let b: i64 = self.bucket(f.px);
        let key = (f.side, b);
        let (cur, old_level): (i64, i64) = match f.side {
            Side::Bid => (get_qty(&self.bid_buckets, &b), get_qty(&self.bids, &f.px)),
            Side::Ask => (get_qty(&self.ask_buckets, &b), get_qty(&self.asks, &f.px)),
        };
        let mut t = match keys.get(&key) {
            Some(t) => *t,
            None => Touch {
                prev: cur,
                new: cur,
                executed: 0,
                rpi: 0,
                fills: 0,
                trades: 0,
                nv: 0,
                cm: 0,
                am: 0,
            },
        };
        let q1: i64 = f.q1.0;
        if q1 != old_level {
            t.new = add_i64(t.new, sub_i64(q1, old_level));
            match f.side {
                Side::Bid => {
                    set_qty(&mut self.bids, f.px, q1);
                    set_qty(&mut self.bid_buckets, b, t.new);
                },
                Side::Ask => {
                    set_qty(&mut self.asks, f.px, q1);
                    set_qty(&mut self.ask_buckets, b, t.new);
                },
            }
        }
        t.executed = add_i64(t.executed, f.executed.0);
        t.rpi = add_i64(t.rpi, f.exec_rpi.0);
        t.fills = add_u64(t.fills, f.n_fills);
        t.trades = add_u64(t.trades, f.n_trades);
        t.nv = add_i64(t.nv, f.no_visible_min.0);
        t.cm = add_i64(t.cm, f.cancelado_min.0);
        t.am = add_i64(t.am, f.agregado_min.0);
        keys.insert(key, t);
    }

    /// The bucket of the mid price.
    fn mid(&self) -> (r: Option<i64>)
        ensures
            r == mid_bucket(self.content()),
    {
        let n = self.bids.len();
        if n == 0 || self.asks.is_empty() {
            None
        } else {
            let sum: i128 = self.bids.key_at(n - 1).0 as i128 + self.asks.key_at(0).0 as i128;
            let half: i128 = trunc_div(sum, 2);
            Some(self.bucket(Px(half as i64)))
        }
    }

    /// The areas of a side in increasing order.
    fn sorted_areas(&self, c: &Candle, side: Side, ts: u64) -> (v: Vec<i128>)
        ensures
            v@ == ascending(
                side_areas(self.content(), c@.cells, side, ts, c@.live_since is Some),
            ),
    {
        let live = c.live_since.is_some();
        let mut v: Vec<i128> = Vec::new();
        let n = c.cells.len();
        let mut i: usize = 0;
        assert(c.cells@.take(0) =~= Seq::empty());
        while i < n
            invariant
                i <= n == c.cells@.len(),
                live == (c@.live_since is Some),
                v@ == ascending(
                    side_areas(self.content(), c.cells@.take(i as int), side, ts, live),
                ),
            decreases n - i,
        {
            let key = *c.cells.key_at(i);
            let cell = c.cells.value_at(i);
            let ghost u = side_areas(self.content(), c.cells@.take(i as int), side, ts, live);
            assert(c.cells@.take(i + 1).drop_last() =~= c.cells@.take(i as int));
            if key.0 == side && !self.is_partial(key.0, key.1) {
                let a: i128 = area_at(cell, ts, live);
                assert(u.push(a).drop_last() =~= u);
                insert_sorted(&mut v, a);
            }
            i += 1;
        }
        assert(c.cells@.take(n as int) =~= c.cells@);
        v
    }
}


/// The distance between two buckets.
fn distance_of(a: i64, b: i64) -> (r: i64)
    ensures
        r == gap_of(a, b),
{
    if a < b {
        sub_i64(b, a)
    } else {
        sub_i64(a, b)
    }
}

impl Metrics {
    /// The verdict on a window at the crossing; the wall where there is one.
    fn judge(
        &mut self,
        wi: usize,
        key: (Side, i64),
        w: Window,
        new: i64,
        acc: i128,
        obs: u64,
        ts: u64,
        mid: Option<i64>,
    ) -> (r: Option<WallRetired>)
        requires
            wi < old(self).content().tracks.len(),
            obs > 0,
        ensures
            ({
                let s = old(self).content();
                let v = verdict(s, s.tracks[wi as int].cur, key, w, new, acc, obs, ts, mid);
                &&& final(self).content() == (MetricsState {
                    wall_stats: judged(s.wall_stats, v),
                    ..s
                })
                &&& r == (match v {
                    Verdict::Fired(e) => Some(e),
                    _ => None,
                })
            }),
    {
        let ghost s = old(self).content();
        let ghost c = s.tracks[wi as int].cur;
        self.wall_stats.evaluated = add_u64(self.wall_stats.evaluated, 1);
        if w.poisoned {
            self.wall_stats.rejected_contaminated = add_u64(
                self.wall_stats.rejected_contaminated,
                1,
            );
            return None;
        }
        if self.is_partial(key.0, key.1) {
            self.wall_stats.rejected_coverage = add_u64(self.wall_stats.rejected_coverage, 1);
            return None;
        }
        let mb: i64 = match mid {
            Some(m) => m,
            None => {
                self.wall_stats.rejected_no_mid = add_u64(self.wall_stats.rejected_no_mid, 1);
                return None;
            },
        };
        let distance: i64 = distance_of(key.1, mb);
        let vals = self.sorted_areas(&self.tracks[wi].cur, key.0, ts);
        proof {
            let live = c.live_since is Some;
            lemma_side_areas_same(self.content(), s, c.cells, key.0, ts, live);
            lemma_ascending_len(side_areas(s, c.cells, key.0, ts, live));
        }
        let thr: i128 = percentile_of(&vals, self.cfg.cfg.wall.percentile, 0);
        if acc < thr {
            self.wall_stats.rejected_percentile = add_u64(self.wall_stats.rejected_percentile, 1);
            return None;
        }
        if distance > self.cfg.cfg.wall.max_distance {
            self.wall_stats.rejected_distance = add_u64(self.wall_stats.rejected_distance, 1);
            return None;
        }
        let drop: i128 = w.start_qty as i128 - new as i128;
        let pct: u32 = self.cfg.cfg.wall.max_exec_pct;
        assert(-0x1_0000_0000_0000_0000_0000_0000 <= pct * drop
            <= 0x1_0000_0000_0000_0000_0000_0000) by (nonlinear_arith)
            requires
                0 <= pct <= 0xffff_ffff,
                -0x1_0000_0000_0000_0000 <= drop <= 0x1_0000_0000_0000_0000,
        ;
        if drop <= 0 || w.executed as i128 * 100 >= pct as i128 * drop {
            self.wall_stats.rejected_exec = add_u64(self.wall_stats.rejected_exec, 1);
            return None;
        }
        self.wall_stats.fired = add_u64(self.wall_stats.fired, 1);
        Some(
            WallRetired {
                side: key.0,
                bucket: key.1,
                px_low: self.low(key.1),
                ts_ms: ts,
                window_start_ms: w.start_ts,
                twa: Qty(average_of(acc, obs)),
                percentile_twa: Qty(average_of(thr, obs)),
                start_qty: Qty(w.start_qty),
                qty: Qty(new),
                executed: Qty(w.executed),
                distance,
            },
        )
    }

    /// The detector looks at a bucket that a batch touched.
    fn wall_step(
        &mut self,
        wi: usize,
        key: (Side, i64),
        t: Touch,
        clean: bool,
        ts: u64,
        mid: Option<i64>,
    )
        requires
            wi < old(self).content().tracks.len(),
        ensures
            final(self).content() == wall_next(
                old(self).content(),
                wi as int,
                key,
                t,
                clean,
                ts,
                mid,
            ),
    {
        let ghost s = old(self).content();
        let c = &self.tracks[wi].cur;
        let obs = c.observed_at(ts);
        if obs == 0 {
            let _ = self.windows.remove(&key);
            return;
        }
        let acc: i128 = match c.cells.get(&key) {
            Some(cell) => area_at(cell, ts, c.live_since.is_some()),
            None => 0,
        };
        if area(t.prev, obs) >= acc {
            self.windows.insert(
                key,
                Window {
                    start_ts: ts,
                    start_qty: t.prev,
                    executed: 0,
                    evaluated: false,
                    poisoned: false,
                },
            );
        }
        if area(t.new, obs) >= acc {
            self.windows.insert(
                key,
                Window {
                    start_ts: ts,
                    start_qty: t.new,
                    executed: 0,
                    evaluated: false,
                    poisoned: false,
                },
            );
            return;
        }
        let mut w = match self.windows.get(&key) {
            Some(w) => *w,
            None => {
                return;
            },
        };
        w.executed = add_i64(w.executed, t.executed);
        w.poisoned = w.poisoned || !clean;
        let x: i128 = 100 - self.cfg.cfg.wall.drop_pct as i128;
        let dropped = mul_i128(area(t.new, obs), 100) < mul_i128(x, acc);
        if !dropped || w.evaluated {
            self.windows.insert(key, w);
            return;
        }
        let ghost before = self.content();
        let found = self.judge(wi, key, w, t.new, acc, obs, ts, mid);
        proof {
            lemma_verdict_windows(s, before, wi as int, key, w, t.new, acc, obs, ts, mid);
        }
        let mut done = w;
        done.evaluated = true;
        self.windows.insert(key, done);
        if let Some(e) = found {
            if self.walls.len() > 0 && self.walls.len() == self.cfg.cfg.keep_walls {
                let ghost all = self.walls@;
                let _ = self.walls.remove(0);
                assert(self.walls@ =~= all.skip(1));
            }
            self.walls.push(e);
        }
    }

    /// Processes a closed batch.
    fn process_batch(&mut self, b: &BatchInfo)
        ensures
            final(self).content() == process_next(old(self).content(), *b),
    {
        let ghost s0 = old(self).content();
        let ts = b.end_ts_ms;
        let mut flows: Vec<LevelFlow> = Vec::new();
        core::mem::swap(&mut flows, &mut self.batch);
        if !self.live {
            return;
        }
        self.advance_to(ts);
        if self.resume_pending {
            self.resume(ts);
        }
        self.now = ts;
        let clean = b.contaminated.is_none();
        if !clean {
            self.stain();
        }
        let ghost p = batch_start(s0, *b);
        assert(self.content() =~= p);
        let mut keys: SortedMap<(Side, i64), Touch> = SortedMap::new();
        let mut i: usize = 0;
        assert(flows@.take(0) =~= Seq::empty());
        while i < flows.len()
            invariant
                i <= flows@.len(),
                ({
                    let t = batch_touch(p, flows@.take(i as int));
                    &&& self.content() == (MetricsState {
                        bids: t.bids,
                        asks: t.asks,
                        bid_buckets: t.bid_buckets,
                        ask_buckets: t.ask_buckets,
                        ..p
                    })
                    &&& keys@ == t.keys
                }),
            decreases flows@.len() - i,
        {
            assert(flows@.take(i + 1).drop_last() =~= flows@.take(i as int));
            let f = flows[i];
            self.touch(&mut keys, &f);
            i += 1;
        }
        assert(flows@.take(i as int) =~= flows@);
        let ghost q = self.content();
        let mid = self.mid();
        if let Some(wi) = self.position(self.cfg.cfg.wall_tf_ms) {
            if wi < self.tracks.len() {
                let n = keys.len();
                let mut j: usize = 0;
                assert(keys@.take(0) =~= Seq::empty());
                while j < n
                    invariant
                        j <= n == keys@.len(),
                        wi < q.tracks.len(),
                        self.content() == walls_next(
                            q,
                            wi as int,
                            keys@.take(j as int),
                            clean,
                            ts,
                            mid,
                        ),
                        self.content().tracks == q.tracks,
                    decreases n - j,
                {
                    assert(keys@.take(j + 1).drop_last() =~= keys@.take(j as int));
                    let key = *keys.key_at(j);
                    let t = *keys.value_at(j);
                    self.wall_step(wi, key, t, clean, ts, mid);
                    j += 1;
                }
                assert(keys@.take(n as int) =~= keys@);
            }
        }
        self.apply_touch(&keys, ts);
    }

    /// No candle in progress is clean any more.
    fn stain(&mut self)
        ensures
            final(self).content() == (MetricsState {
                tracks: Seq::new(
                    old(self).content().tracks.len(),
                    |i: int|
                        TrackState {
                            cur: CandleState {
                                clean: false,
                                ..old(self).content().tracks[i].cur
                            },
                            ..old(self).content().tracks[i]
                        },
                ),
                ..old(self).content()
            }),
    {
        let ghost s = old(self).content();
        let ghost goal = Seq::new(
            s.tracks.len(),
            |i: int|
                TrackState {
                    cur: CandleState { clean: false, ..s.tracks[i].cur },
                    ..s.tracks[i]
                },
        );
        let n = self.tracks.len();
        let mut i: usize = 0;
        while i < n
            invariant
                i <= n == s.tracks.len() == self.tracks@.len(),
                s == old(self).content(),
                goal == Seq::new(
                    s.tracks.len(),
                    |i: int|
                        TrackState {
                            cur: CandleState { clean: false, ..s.tracks[i].cur },
                            ..s.tracks[i]
                        },
                ),
                forall|j: int| 0 <= j < i ==> (#[trigger] self.tracks@[j])@ == goal[j],
                forall|j: int| i <= j < n ==> (#[trigger] self.tracks@[j])@ == s.tracks[j],
                self.content() == (MetricsState { tracks: tviews(self.tracks@), ..s }),
            decreases n - i,
        {
            self.tracks[i].cur.clean = false;
            i += 1;
        }
        assert(tviews(self.tracks@) =~= goal);
    }

    /// Applies what a batch did to every candle in progress.
    fn apply_touch(&mut self, keys: &SortedMap<(Side, i64), Touch>, ts: u64)
        ensures
            final(self).content() == (MetricsState {
                tracks: Seq::new(
                    old(self).content().tracks.len(),
                    |i: int|
                        TrackState {
                            cur: candle_next(old(self).content().tracks[i].cur, keys@, ts),
                            ..old(self).content().tracks[i]
                        },
                ),
                ..old(self).content()
            }),
    {
        let ghost s = old(self).content();
        let ghost goal = Seq::new(
            s.tracks.len(),
            |i: int| TrackState { cur: candle_next(s.tracks[i].cur, keys@, ts), ..s.tracks[i] },
        );
        let n = self.tracks.len();
        let mut i: usize = 0;
        while i < n
            invariant
                i <= n == s.tracks.len() == self.tracks@.len(),
                s == old(self).content(),
                goal == Seq::new(
                    s.tracks.len(),
                    |i: int|
                        TrackState { cur: candle_next(s.tracks[i].cur, keys@, ts), ..s.tracks[i] },
                ),
                forall|j: int| 0 <= j < i ==> (#[trigger] self.tracks@[j])@ == goal[j],
                forall|j: int| i <= j < n ==> (#[trigger] self.tracks@[j])@ == s.tracks[j],
                self.content() == (MetricsState { tracks: tviews(self.tracks@), ..s }),
            decreases n - i,
        {
            self.tracks[i].cur.apply(keys, ts);
            i += 1;
        }
        assert(tviews(self.tracks@) =~= goal);
    }
}

/// The areas of a side depend on the coverage only.
proof fn lemma_side_areas_same(
    s: MetricsState,
    t: MetricsState,
    cells: Seq<((Side, i64), CellState)>,
    side: Side,
    ts: u64,
    live: bool,
)
    requires
        s.bids == t.bids,
        s.asks == t.asks,
        s.floor == t.floor,
        s.ceiling == t.ceiling,
        s.rolling == t.rolling,
        s.cfg == t.cfg,
    ensures
        side_areas(s, cells, side, ts, live) == side_areas(t, cells, side, ts, live),
    decreases cells.len(),
{
    if cells.len() > 0 {
        lemma_side_areas_same(s, t, cells.drop_last(), side, ts, live);
    }
}

/// Ordering keeps the number of values.
proof fn lemma_ascending_len(s: Seq<i128>)
    ensures
        ascending(s).len() == s.len(),
    decreases s.len(),
{
    if s.len() > 0 {
        lemma_ascending_len(s.drop_last());
        lemma_inserted_len(ascending(s.drop_last()), s.last());
    }
}

proof fn lemma_inserted_len(s: Seq<i128>, v: i128)
    ensures
        inserted(s, v).len() == s.len() + 1,
    decreases s.len(),
{
    if s.len() > 0 && s.last() > v {
        lemma_inserted_len(s.drop_last(), v);
    }
}

/// The verdict does not depend on the windows.
proof fn lemma_verdict_windows(
    s: MetricsState,
    t: MetricsState,
    wi: int,
    key: (Side, i64),
    w: Window,
    new: i64,
    acc: i128,
    obs: u64,
    ts: u64,
    mid: Option<i64>,
)
    requires
        t == (MetricsState { windows: t.windows, ..s }),
    ensures
        verdict(s, s.tracks[wi].cur, key, w, new, acc, obs, ts, mid) == verdict(
            t,
            t.tracks[wi].cur,
            key,
            w,
            new,
            acc,
            obs,
            ts,
            mid,
        ),
{
    let c = s.tracks[wi].cur;
    lemma_side_areas_same(s, t, c.cells, key.0, ts, c.live_since is Some);
}

/// The reference of short candles, as it is computed.
struct RefTable {
    twa: SortedMap<(Side, i64), i64>,
    bid_thr: i64,
    ask_thr: i64,
}

impl View for RefTable {
    type V = Reference;

    closed spec fn view(&self) -> Reference {
        Reference { twa: self.twa@, bid_thr: self.bid_thr, ask_thr: self.ask_thr }
    }
}

/// What an optional reference holds.
spec fn rview(r: Option<RefTable>) -> Option<Reference> {
    match r {
        Some(t) => Some(t@),
        None => None,
    }
}

/// The TWA of each bucket of a closed candle.
fn averages_of(c: &Candle) -> (r: SortedMap<(Side, i64), i64>)
    requires
        c@.observed > 0,
    ensures
        r@ == averages(c@),
{
    let mut r: SortedMap<(Side, i64), i64> = SortedMap::new();
    let n = c.cells.len();
    let mut i: usize = 0;
    while i < n
        invariant
            i <= n == c.cells@.len(),
            sorted(c.cells@),
            c@.observed > 0,
            r@ == averages(c@).take(i as int),
        decreases n - i,
    {
        let key = *c.cells.key_at(i);
        let v: i64 = average_of(c.cells.value_at(i).acc, c.observed);
        proof {
            let s = r@;
            assert forall|j: int| 0 <= j < s.len() implies crate::ordmap::key_lt(
                #[trigger] s[j].0,
                key,
            ) by {
                assert(s[j].0 == c.cells@[j].0);
            }
            crate::ordmap::lemma_append(s, key, v);
            assert(averages(c@).take(i + 1) =~= s.push((key, v)));
        }
        r.insert(key, v);
        i += 1;
    }
    assert(averages(c@).take(n as int) =~= averages(c@));
    r
}

/// Values that all fit in `i64` keep fitting when ordered.
proof fn lemma_ascending_bounds(s: Seq<i128>)
    requires
        forall|i: int| 0 <= i < s.len() ==> i64::MIN <= #[trigger] s[i] <= i64::MAX,
    ensures
        ascending(s).len() == s.len(),
        forall|i: int|
            0 <= i < ascending(s).len() ==> i64::MIN <= #[trigger] ascending(s)[i] <= i64::MAX,
    decreases s.len(),
{
    if s.len() > 0 {
        let u = s.drop_last();
        assert forall|i: int| 0 <= i < u.len() implies i64::MIN <= #[trigger] u[i] <= i64::MAX by {
            assert(u[i] == s[i]);
        }
        lemma_ascending_bounds(u);
        lemma_inserted_bounds(ascending(u), s.last());
    }
}

proof fn lemma_inserted_bounds(s: Seq<i128>, v: i128)
    requires
        i64::MIN <= v <= i64::MAX,
        forall|i: int| 0 <= i < s.len() ==> i64::MIN <= #[trigger] s[i] <= i64::MAX,
    ensures
        inserted(s, v).len() == s.len() + 1,
        forall|i: int|
            0 <= i < inserted(s, v).len() ==> i64::MIN <= #[trigger] inserted(s, v)[i] <= i64::MAX,
    decreases s.len(),
{
    if s.len() > 0 && s.last() > v {
        let u = s.drop_last();
        assert forall|i: int| 0 <= i < u.len() implies i64::MIN <= #[trigger] u[i] <= i64::MAX by {
            assert(u[i] == s[i]);
        }
        assert(i64::MIN <= s[s.len() - 1] <= i64::MAX);
        lemma_inserted_bounds(u, v);
        assert(inserted(s, v) == inserted(u, v).push(s.last()));
    }
}

impl Metrics {
    /// The threshold that makes a TWA of a side high.
    fn threshold(&self, twa: &SortedMap<(Side, i64), i64>, side: Side) -> (r: i64)
        ensures
            r as i128 == percentile(
                side_averages(self.content(), twa@, side),
                self.content().cfg.tactical.high_percentile,
                i64::MAX as i128,
            ),
    {
        let mut v: Vec<i128> = Vec::new();
        let n = twa.len();
        let mut i: usize = 0;
        assert(twa@.take(0) =~= Seq::empty());
        while i < n
            invariant
                i <= n == twa@.len(),
                v@ == ascending(side_averages(self.content(), twa@.take(i as int), side)),
                forall|j: int|
                    0 <= j < side_averages(self.content(), twa@.take(i as int), side).len()
                        ==> i64::MIN <= #[trigger] side_averages(
                        self.content(),
                        twa@.take(i as int),
                        side,
                    )[j] <= i64::MAX,
            decreases n - i,
        {
            let key = *twa.key_at(i);
            let t: i64 = *twa.value_at(i);
            let ghost u = side_averages(self.content(), twa@.take(i as int), side);
            assert(twa@.take(i + 1).drop_last() =~= twa@.take(i as int));
            if key.0 == side && !self.is_partial(key.0, key.1) {
                assert(u.push(t as i128).drop_last() =~= u);
                insert_sorted(&mut v, t as i128);
            }
            i += 1;
        }
        assert(twa@.take(n as int) =~= twa@);
        proof {
            lemma_ascending_bounds(side_averages(self.content(), twa@, side));
        }
        let p: i128 = percentile_of(
            &v,
            self.cfg.cfg.tactical.high_percentile,
            0x7fff_ffff_ffff_ffffi128,
        );
        p as i64
    }

    /// The reference that starts at `start`.
    fn reference_at(&self, start: u64) -> (r: Option<RefTable>)
        ensures
            rview(r) == reference(self.content(), start),
    {
        let li: usize = match self.position(self.cfg.cfg.tactical.long_tf_ms) {
            Some(i) => i,
            None => {
                return None;
            },
        };
        if li >= self.tracks.len() {
            return None;
        }
        let past = &self.tracks[li].past;
        assert(self.content().tracks[li as int].past == cviews(past@));
        let mut i: usize = 0;
        while i < past.len()
            invariant
                i <= past@.len(),
                li < self.tracks@.len(),
                position_from(
                    self.content().cfg.timeframes_ms@,
                    self.content().cfg.tactical.long_tf_ms,
                    0,
                ) == Some(li as int),
                self.content().tracks[li as int].past == cviews(past@),
                starting_at(cviews(past@), start, 0) == starting_at(
                    cviews(past@),
                    start,
                    i as int,
                ),
            decreases past@.len() - i,
        {
            let c = &past[i];
            if c.start == start {
                assert(cviews(past@)[i as int] == c@);
                if c.observed == 0 {
                    return None;
                }
                let twa = averages_of(c);
                let bid_thr: i64 = self.threshold(&twa, Side::Bid);
                let ask_thr: i64 = self.threshold(&twa, Side::Ask);
                return Some(RefTable { twa, bid_thr, ask_thr });
            }
            i += 1;
        }
        None
    }

    /// The reading of a bucket.
    fn classify(&self, side: Side, twa: i64, ref_twa: i64, thr: i64) -> (r: Option<Liquidity>)
        ensures
            r == reading(self.content().cfg.tactical, twa, ref_twa, thr),
    {
        if ref_twa <= 0 {
            return if twa > 0 {
                Some(Liquidity::Tactica)
            } else {
                None
            };
        }
        let hi: u32 = self.cfg.cfg.tactical.approx_high_pct;
        let lo: u32 = self.cfg.cfg.tactical.approx_low_pct;
        assert(0 <= hi * ref_twa <= 0xffff_ffff * 0x7fff_ffff_ffff_ffff) by (nonlinear_arith)
            requires
                0 <= hi <= 0xffff_ffff,
                0 <= ref_twa <= 0x7fff_ffff_ffff_ffff,
        ;
        assert(0 <= lo * ref_twa <= 0xffff_ffff * 0x7fff_ffff_ffff_ffff) by (nonlinear_arith)
            requires
                0 <= lo <= 0xffff_ffff,
                0 <= ref_twa <= 0x7fff_ffff_ffff_ffff,
        ;
        let t: i128 = twa as i128 * 100;
        let r: i128 = ref_twa as i128;
        Some(
            if t > hi as i128 * r {
                Liquidity::Tactica
            } else if t < lo as i128 * r {
                Liquidity::Desarmandose
            } else if ref_twa >= thr {
                Liquidity::Estructural
            } else {
                Liquidity::Estable
            },
        )
    }

    /// Where the reference of a candle starts.
    fn reference_start(&self, c: &Candle) -> (r: Option<u64>)
        ensures
            r == ref_start(self.content().cfg.tactical, c@),
    {
        proof {
            use_type_invariant(&self.cfg);
        }
        let long: u64 = self.cfg.cfg.tactical.long_tf_ms;
        let q: u64 = c.start / long;
        proof {
            lemma_floor(c.start as int, long as int);
        }
        let base: u64 = q * long;
        if c.tf == self.cfg.cfg.tactical.short_tf_ms && base >= long {
            Some(base - long)
        } else {
            None
        }
    }

    /// A bucket as it is shown.
    fn cell_view(
        &self,
        c: &Candle,
        key: (Side, i64),
        cell: &CellState,
        at: u64,
        r: &Option<RefTable>,
    ) -> (v: CellView)
        ensures
            v == cell_show(self.content(), c@, key, *cell, at, rview(*r)),
    {
        let obs = c.observed_at(at);
        let twa: i64 = if obs > 0 {
            average_of(area_at(cell, at, c.live_since.is_some()), obs)
        } else {
            0
        };
        let (twa_ref, liquidity) = match r {
            Some(t) => {
                let q: i64 = get_qty(&t.twa, &key);
                let thr: i64 = match key.0 {
                    Side::Bid => t.bid_thr,
                    Side::Ask => t.ask_thr,
                };
                (Some(Qty(q)), self.classify(key.0, twa, q, thr))
            },
            None => (None, None),
        };
        CellView {
            side: key.0,
            bucket: key.1,
            px_low: self.low(key.1),
            twa: Qty(twa),
            qty: Qty(cell.qty),
            executed: Qty(cell.executed),
            exec_rpi: Qty(cell.rpi),
            n_fills: cell.fills,
            n_trades: cell.trades,
            no_visible_min: Qty(cell.nv),
            cancelado_min: Qty(cell.cm),
            agregado_min: Qty(cell.am),
            partial: self.is_partial(key.0, key.1),
            twa_ref,
            liquidity,
        }
    }

    /// A candle as it is shown at `at`.
    fn candle_view(&self, c: &Candle, at: u64) -> (v: CandleView)
        ensures
            v@ == candle_show(self.content(), c@, at),
    {
        let start = self.reference_start(c);
        let r: Option<RefTable> = match start {
            Some(t) => self.reference_at(t),
            None => None,
        };
        let ghost show = candle_show(self.content(), c@, at);
        assert(rview(r) == reference_of(self.content(), c@));
        let mut buy: i64 = 0;
        let mut sell: i64 = 0;
        let mut cells: Vec<CellView> = Vec::new();
        let n = c.cells.len();
        let mut i: usize = 0;
        assert(c.cells@.take(0) =~= Seq::empty());
        while i < n
            invariant
                i <= n == c.cells@.len(),
                show == candle_show(self.content(), c@, at),
                rview(r) == reference_of(self.content(), c@),
                buy == side_executed(c.cells@.take(i as int), Side::Ask),
                sell == side_executed(c.cells@.take(i as int), Side::Bid),
                cells@ == show.cells.take(i as int),
            decreases n - i,
        {
            let key = *c.cells.key_at(i);
            let cell = c.cells.value_at(i);
            assert(c.cells@.take(i + 1).drop_last() =~= c.cells@.take(i as int));
            match key.0 {
                Side::Bid => {
                    sell = add_i64(sell, cell.executed);
                },
                Side::Ask => {
                    buy = add_i64(buy, cell.executed);
                },
            }
            let v = self.cell_view(c, key, cell, at, &r);
            assert(v == show.cells[i as int]);
            cells.push(v);
            assert(cells@ =~= show.cells.take(i + 1));
            i += 1;
        }
        assert(c.cells@.take(n as int) =~= c.cells@);
        assert(show.cells.take(n as int) =~= show.cells);
        CandleView {
            tf_ms: c.tf,
            start_ms: c.start,
            end_ms: c.end,
            observed_ms: c.observed_at(at),
            clean: c.clean,
            buy_exec: Qty(buy),
            sell_exec: Qty(sell),
            delta: Qty(sub_i64(buy, sell)),
            ref_start_ms: if r.is_some() {
                start
            } else {
                None
            },
            cells,
        }
    }

    /// The last `n` closed candles of a track as they are shown.
    fn past_view(&self, past: &Vec<Candle>, n: usize) -> (r: Vec<CandleView>)
        ensures
            shows(r@) == past_show(self.content(), cviews(past@), n as nat),
    {
        let from: usize = if past.len() <= n {
            0
        } else {
            past.len() - n
        };
        let ghost goal = past_show(self.content(), cviews(past@), n as nat);
        let mut r: Vec<CandleView> = Vec::new();
        let mut i: usize = from;
        while i < past.len()
            invariant
                from <= i <= past@.len(),
                from == (if past@.len() <= n {
                    0
                } else {
                    past@.len() - n
                }),
                goal == past_show(self.content(), cviews(past@), n as nat),
                shows(r@) == goal.take(i - from),
                goal.len() == past@.len() - from,
            decreases past@.len() - i,
        {
            let ghost before = r@;
            let c = &past[i];
            let v = self.candle_view(c, c.end);
            proof {
                let l = last_n(cviews(past@), n as nat);
                assert(l[i - from] == c@);
                assert(goal[i - from] == v@);
            }
            r.push(v);
            assert(shows(r@) =~= shows(before).push(v@));
            assert(goal.take(i - from + 1) =~= goal.take(i - from).push(goal[i - from]));
            i += 1;
        }
        assert(goal.take(i - from) =~= goal);
        r
    }

    /// Everything shown (candles in progress at the last instant processed).
    pub fn view(&self, closed_per_tf: usize) -> (r: MetricsView)
        ensures
            r@ == metrics_show(self.content(), closed_per_tf as nat),
    {
        let ghost s = self.content();
        let ghost show = metrics_show(s, closed_per_tf as nat);
        let mut current: Vec<CandleView> = Vec::new();
        let mut closed: Vec<Vec<CandleView>> = Vec::new();
        if self.tracks.len() == 0 {
            let n = self.cfg.cfg.timeframes_ms.len();
            let mut i: usize = 0;
            while i < n
                invariant
                    i <= n == s.cfg.timeframes_ms@.len(),
                    closed@.len() == i,
                    forall|j: int| 0 <= j < i ==> shows((#[trigger] closed@[j])@) == Seq::<
                        CandleShow,
                    >::empty(),
                decreases n - i,
            {
                let none: Vec<CandleView> = Vec::new();
                assert(shows(none@) =~= Seq::empty());
                closed.push(none);
                i += 1;
            }
        } else {
            let mut i: usize = 0;
            while i < self.tracks.len()
                invariant
                    i <= self.tracks@.len(),
                    s == self.content(),
                    show == metrics_show(s, closed_per_tf as nat),
                    self.tracks@.len() > 0,
                    current@.len() == i,
                    closed@.len() == i,
                    forall|j: int| 0 <= j < i ==> (#[trigger] current@[j])@ == show.current[j],
                    forall|j: int| 0 <= j < i ==> shows((#[trigger] closed@[j])@) == show.closed[j],
                decreases self.tracks@.len() - i,
            {
                let t = &self.tracks[i];
                assert(s.tracks[i as int] == t@);
                current.push(self.candle_view(&t.cur, self.now));
                closed.push(self.past_view(&t.past, closed_per_tf));
                i += 1;
            }
        }
        let mut walls: Vec<WallRetired> = Vec::new();
        let mut k: usize = 0;
        while k < self.walls.len()
            invariant
                k <= self.walls@.len(),
                walls@ == self.walls@.take(k as int),
            decreases self.walls@.len() - k,
        {
            walls.push(self.walls[k]);
            k += 1;
        }
        let r = MetricsView {
            now_ms: self.now,
            current,
            closed,
            walls,
            wall_stats: self.wall_stats,
            bid_floor_bucket: self.floor_bucket(),
            ask_ceiling_bucket: self.ceiling_bucket(),
        };
        assert(r@.current =~= show.current);
        assert(r@.closed =~= show.closed);
        assert(r@.walls =~= show.walls);
        r
    }
}

impl FlowSink for Metrics {
    type State = MetricsState;

    open spec fn state(&self) -> MetricsState {
        self.content()
    }

    open spec fn flow_next(s: MetricsState, f: LevelFlow) -> MetricsState {
        MetricsState { batch: s.batch.push(f), ..s }
    }

    open spec fn batch_next(s: MetricsState, b: BatchInfo) -> MetricsState {
        process_next(s, b)
    }

    open spec fn rebuild_next(s: MetricsState, epoch: u64, book: BookState) -> MetricsState {
        rebuilt_next(s, book)
    }

    open spec fn invalidate_next(
        s: MetricsState,
        epoch: u64,
        reason: ResyncReason,
    ) -> MetricsState {
        invalidated_next(s)
    }

    fn on_level_flow(&mut self, f: &LevelFlow) {
        self.batch.push(*f);
    }

    fn on_batch(&mut self, b: &BatchInfo) {
        self.process_batch(b);
    }

    fn on_rebuild(&mut self, epoch: u64, book: &L2Book) {
        self.bids = raw_of(book.bids());
        self.asks = raw_of(book.asks());
        let cov = book.coverage();
        self.floor = match cov.bid_floor {
            Some(p) => Some(self.bucket(p)),
            None => None,
        };
        self.ceiling = match cov.ask_ceiling {
            Some(p) => Some(self.bucket(p)),
            None => None,
        };
        self.rolling = book.is_rolling();
        self.live = true;
        self.resume_pending = true;
        self.batch.clear();
    }

    fn on_invalidate(&mut self, epoch: u64, reason: ResyncReason) {
        if self.live {
            let now = self.now;
            self.pause(now);
        }
        self.live = false;
        self.resume_pending = false;
        self.batch.clear();
    }
}

} // verus!

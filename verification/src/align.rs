//! Aligner of trades and depth.
//!
//! Each applied diff closes a batch: the interval of exchange time
//! `(start, end]` between the diff before it and this one. For each level the
//! synchronised book gives exactly `q0` (at the start) and `q1` (at the end).
//! Trades go to the batch of their time; a buyer consumes asks, a seller bids.
//!
//! With `e` the quantity executed at the level within the batch (without hidden
//! retail orders), two lower bounds are published:
//!
//! * `no_visible_min = max(0, e - q0)`: executed that was not visible at the start;
//! * `cancelado_min = max(0, q0 - e - q1)`: cancelled in the batch.
//!
//! Where the time of a trade may differ by up to `boundary_slack_ms` from the real
//! one, `exec_lo` adds only the trades surely inside and `exec_hi` all those that
//! may be inside; the bounds use the one that keeps them valid.

use crate::book::{ladder_qty, ladder_set, BookState, L2Book};
use crate::event::{AggTrade, Aggressor, DepthDiff, Side};
use crate::fixed::{Px, Qty};
use crate::num::{add_i64, add_u64, clamp_i64, clamp_u64, sub_i64, sub_u64, to_i64};
use crate::observer::BookObserver;
use crate::ordmap::{find, holds, put, sorted, SortKey, SortedMap};
use crate::sync::{inc, ResyncReason};
use std::collections::VecDeque;
use vstd::prelude::*;

verus! {

/// A level: side of the book and price.
pub type LevelKey = (Side, Px);

impl SortKey for (Side, Px) {
    open spec fn major(self) -> int {
        match self.0 {
            Side::Bid => 0,
            Side::Ask => 1,
        }
    }

    open spec fn minor(self) -> int {
        self.1.0 as int
    }

    proof fn same_rank(a: Self, b: Self) {
    }

    fn precedes(&self, other: &Self) -> (r: bool) {
        match (self.0, other.0) {
            (Side::Bid, Side::Ask) => true,
            (Side::Ask, Side::Bid) => false,
            _ => self.1.0 < other.1.0,
        }
    }
}

/// Parameters of the aligner.
#[derive(Debug, Clone, Copy, PartialEq, Eq, Structural)]
pub struct AlignerConfig {
    /// Longest wait (depth time) for the trades of a batch when trades are quiet (ms).
    pub watermark_ms: u64,
    /// Uncertainty of the time of a trade (ms).
    pub boundary_slack_ms: u64,
    /// Most trades held.
    pub max_trades: usize,
    /// Most open batches (beyond it closes are forced).
    pub max_open_batches: usize,
}

impl Default for AlignerConfig {
    /// The usual limits.
    fn default() -> (r: Self)
        ensures
            r == (AlignerConfig {
                watermark_ms: 250,
                boundary_slack_ms: 0,
                max_trades: 200_000,
                max_open_batches: 4_096,
            }),
    {
        AlignerConfig {
            watermark_ms: 250,
            boundary_slack_ms: 0,
            max_trades: 200_000,
            max_open_batches: 4_096,
        }
    }
}

/// A line whose clock is further behind the most advanced one than this no longer
/// holds batches open (ms).
pub const LINE_LAG_MS: u64 = 1_000;

/// Why a batch admits no claim on executions.
#[derive(Debug, Clone, Copy, PartialEq, Eq, Structural)]
pub enum Contamination {
    /// First batch of an epoch: its `q0` comes from the snapshot.
    EpochStart,
    /// The store of trades overflowed while the batch was open.
    TradeOverflow,
}

/// Flow of a level in a closed batch.
#[derive(Debug, Clone, Copy, PartialEq, Eq, Structural)]
pub struct LevelFlow {
    /// Epoch of the book.
    pub epoch: u64,
    /// Side of the book.
    pub side: Side,
    /// Price.
    pub px: Px,
    /// Start of the batch (exclusive, exchange ms).
    pub start_ts_ms: u64,
    /// End of the batch (inclusive, exchange ms).
    pub end_ts_ms: u64,
    /// Visible quantity at the start.
    pub q0: Qty,
    /// Visible quantity at the end.
    pub q1: Qty,
    /// Executed, by the nominal time of the trades.
    pub executed: Qty,
    /// Executed surely within the batch.
    pub exec_lo: Qty,
    /// Executed possibly within the batch.
    pub exec_hi: Qty,
    /// Executed against hidden retail orders, apart.
    pub exec_rpi: Qty,
    /// Real fills.
    pub n_fills: u64,
    /// Aggregated trades.
    pub n_trades: u64,
    /// Lower bound of what was executed and not visible at the start.
    pub no_visible_min: Qty,
    /// Lower bound of what was cancelled.
    pub cancelado_min: Qty,
    /// Lower bound of what was added.
    pub agregado_min: Qty,
    /// `false` means a contaminated batch: exact `q0` and `q1`, no claim on executions.
    pub clean: bool,
}

/// Summary of a closed batch.
#[derive(Debug, Clone, Copy, PartialEq, Eq, Structural)]
pub struct BatchInfo {
    /// Epoch.
    pub epoch: u64,
    /// Start (exclusive).
    pub start_ts_ms: u64,
    /// End (inclusive).
    pub end_ts_ms: u64,
    /// Levels that changed.
    pub levels_changed: u32,
    /// Trades assigned nominally.
    pub trades: u64,
    /// Contamination, if any.
    pub contaminated: Option<Contamination>,
}

/// Consumer of flows: a deterministic machine over `State`.
pub trait FlowSink: Sized {
    /// What the consumer remembers.
    type State;

    /// The present state.
    spec fn state(&self) -> Self::State;

    /// The state after [`FlowSink::on_level_flow`].
    spec fn flow_next(s: Self::State, f: LevelFlow) -> Self::State;

    /// The state after [`FlowSink::on_batch`].
    spec fn batch_next(s: Self::State, b: BatchInfo) -> Self::State;

    /// The state after [`FlowSink::on_rebuild`].
    spec fn rebuild_next(s: Self::State, epoch: u64, book: BookState) -> Self::State;

    /// The state after [`FlowSink::on_invalidate`].
    spec fn invalidate_next(s: Self::State, epoch: u64, reason: ResyncReason) -> Self::State;

    /// Flow of a level (they come in order of side and price).
    fn on_level_flow(&mut self, f: &LevelFlow)
        ensures
            final(self).state() == Self::flow_next(old(self).state(), *f),
    ;

    /// A batch closed (after its flows).
    fn on_batch(&mut self, b: &BatchInfo)
        ensures
            final(self).state() == Self::batch_next(old(self).state(), *b),
    ;

    /// A new epoch: the book was rebuilt.
    fn on_rebuild(&mut self, epoch: u64, book: &L2Book)
        ensures
            final(self).state() == Self::rebuild_next(old(self).state(), epoch, book@),
    ;

    /// Synchronisation was lost: every state in progress is contaminated.
    fn on_invalidate(&mut self, epoch: u64, reason: ResyncReason)
        ensures
            final(self).state() == Self::invalidate_next(old(self).state(), epoch, reason),
    ;
}

/// The consumer that ignores everything.
impl FlowSink for () {
    type State = ();

    open spec fn state(&self) -> () {
        ()
    }

    open spec fn flow_next(s: (), f: LevelFlow) -> () {
        ()
    }

    open spec fn batch_next(s: (), b: BatchInfo) -> () {
        ()
    }

    open spec fn rebuild_next(s: (), epoch: u64, book: BookState) -> () {
        ()
    }

    open spec fn invalidate_next(s: (), epoch: u64, reason: ResyncReason) -> () {
        ()
    }

    fn on_level_flow(&mut self, f: &LevelFlow) {
    }

    fn on_batch(&mut self, b: &BatchInfo) {
    }

    fn on_rebuild(&mut self, epoch: u64, book: &L2Book) {
    }

    fn on_invalidate(&mut self, epoch: u64, reason: ResyncReason) {
    }
}

/// Two consumers side by side.
impl<A: FlowSink, B: FlowSink> FlowSink for (A, B) {
    type State = (A::State, B::State);

    open spec fn state(&self) -> (A::State, B::State) {
        (self.0.state(), self.1.state())
    }

    open spec fn flow_next(s: (A::State, B::State), f: LevelFlow) -> (A::State, B::State) {
        (A::flow_next(s.0, f), B::flow_next(s.1, f))
    }

    open spec fn batch_next(s: (A::State, B::State), b: BatchInfo) -> (A::State, B::State) {
        (A::batch_next(s.0, b), B::batch_next(s.1, b))
    }

    open spec fn rebuild_next(s: (A::State, B::State), epoch: u64, book: BookState) -> (
        A::State,
        B::State,
    ) {
        (A::rebuild_next(s.0, epoch, book), B::rebuild_next(s.1, epoch, book))
    }

    open spec fn invalidate_next(
        s: (A::State, B::State),
        epoch: u64,
        reason: ResyncReason,
    ) -> (A::State, B::State) {
        (A::invalidate_next(s.0, epoch, reason), B::invalidate_next(s.1, epoch, reason))
    }

    fn on_level_flow(&mut self, f: &LevelFlow) {
        self.0.on_level_flow(f);
        self.1.on_level_flow(f);
    }

    fn on_batch(&mut self, b: &BatchInfo) {
        self.0.on_batch(b);
        self.1.on_batch(b);
    }

    fn on_rebuild(&mut self, epoch: u64, book: &L2Book) {
        self.0.on_rebuild(epoch, book);
        self.1.on_rebuild(epoch, book);
    }

    fn on_invalidate(&mut self, epoch: u64, reason: ResyncReason) {
        self.0.on_invalidate(epoch, reason);
        self.1.on_invalidate(epoch, reason);
    }
}

/// Counters of the aligner. They only grow, and stop at `u64::MAX`.
#[derive(Debug, Clone, Copy, PartialEq, Eq, Structural)]
pub struct AlignerStats {
    /// Trades received.
    pub trades_rx: u64,
    /// Assigned to a clean batch.
    pub aligned: u64,
    /// Assigned to a contaminated batch.
    pub contaminated: u64,
    /// Came with their batch already closed.
    pub late: u64,
    /// Came with the book out of sync.
    pub syncing: u64,
    /// Pushed out by overflow of the store.
    pub overflow: u64,
    /// Discarded by loss of synchronisation.
    pub invalidated: u64,
    /// Repeated (same time and id).
    pub duplicate: u64,
    /// Trades near a boundary (informative).
    pub ambiguous: u64,
    /// Came after the close of the neighbour batch that might contain them (informative).
    pub late_ambiguous: u64,
    /// Clean batches closed.
    pub batches_clean: u64,
    /// Contaminated batches.
    pub batches_contaminated: u64,
    /// Level flows emitted.
    pub flows_emitted: u64,
    /// Closes by the marks of the trades.
    pub closed_by_trades: u64,
    /// Closes by depth time.
    pub closed_by_timeout: u64,
    /// Closes forced by the limit of open batches.
    pub closed_forced: u64,
    /// Diffs with a time before the previous one (they are set to it).
    pub ts_regressions: u64,
    /// Previous quantity of the book different from the mirror.
    pub mirror_mismatch: u64,
    /// Most open batches seen.
    pub max_open_batches_seen: u64,
}

impl AlignerStats {
    /// Every counter at zero.
    pub open spec fn zero() -> AlignerStats {
        AlignerStats {
            trades_rx: 0,
            aligned: 0,
            contaminated: 0,
            late: 0,
            syncing: 0,
            overflow: 0,
            invalidated: 0,
            duplicate: 0,
            ambiguous: 0,
            late_ambiguous: 0,
            batches_clean: 0,
            batches_contaminated: 0,
            flows_emitted: 0,
            closed_by_trades: 0,
            closed_by_timeout: 0,
            closed_forced: 0,
            ts_regressions: 0,
            mirror_mismatch: 0,
            max_open_batches_seen: 0,
        }
    }

    /// The trades that reached a final account.
    pub open spec fn settled(self) -> int {
        self.aligned + self.contaminated + self.late + self.syncing + self.overflow
            + self.invalidated + self.duplicate
    }
}

impl Default for AlignerStats {
    /// Every counter at zero.
    fn default() -> (r: Self)
        ensures
            r == AlignerStats::zero(),
    {
        AlignerStats {
            trades_rx: 0,
            aligned: 0,
            contaminated: 0,
            late: 0,
            syncing: 0,
            overflow: 0,
            invalidated: 0,
            duplicate: 0,
            ambiguous: 0,
            late_ambiguous: 0,
            batches_clean: 0,
            batches_contaminated: 0,
            flows_emitted: 0,
            closed_by_trades: 0,
            closed_by_timeout: 0,
            closed_forced: 0,
            ts_regressions: 0,
            mirror_mismatch: 0,
            max_open_batches_seen: 0,
        }
    }
}

/// A trade as the aligner holds it.
#[derive(Debug, Clone, Copy)]
pub struct TradeRec {
    /// Level that it consumed.
    pub key: (Side, Px),
    /// Quantity without hidden retail orders.
    pub qty_n: Qty,
    /// Quantity against hidden retail orders.
    pub rpi: Qty,
    /// Real fills.
    pub fills: u64,
    /// Already assigned to a batch.
    pub counted: bool,
}

/// What the trades of a batch add up to at one level.
#[derive(Debug, Clone, Copy, PartialEq, Eq, Structural)]
pub struct Acc {
    /// Executed by nominal time.
    pub executed: Qty,
    /// Executed surely within the batch.
    pub lo: Qty,
    /// Executed possibly within the batch.
    pub hi: Qty,
    /// Executed against hidden retail orders.
    pub rpi: Qty,
    /// Real fills.
    pub fills: u64,
    /// Trades.
    pub trades: u64,
}

impl Acc {
    /// No trade.
    pub open spec fn zero() -> Acc {
        Acc { executed: Qty(0), lo: Qty(0), hi: Qty(0), rpi: Qty(0), fills: 0, trades: 0 }
    }
}

/// An open batch.
struct Batch {
    start: u64,
    end: u64,
    contaminated: Option<Contamination>,
    changes: SortedMap<(Side, Px), (Qty, Qty)>,
}

/// What an open batch holds.
#[verifier::ext_equal]
pub struct BatchState {
    /// Start (exclusive).
    pub start: u64,
    /// End (inclusive).
    pub end: u64,
    /// Contamination, if any.
    pub contaminated: Option<Contamination>,
    /// Changed levels with their quantities at the start and at the end.
    pub changes: Seq<((Side, Px), (Qty, Qty))>,
}

impl View for Batch {
    type V = BatchState;

    closed spec fn view(&self) -> BatchState {
        BatchState {
            start: self.start,
            end: self.end,
            contaminated: self.contaminated,
            changes: self.changes@,
        }
    }
}

/// What an [`Aligner`] holds, over the states `S` of its consumer.
#[verifier::ext_equal]
pub struct AlignState<S> {
    /// The parameters.
    pub cfg: AlignerConfig,
    /// The state of the consumer.
    pub sink: S,
    /// The book is synchronised.
    pub live: bool,
    /// The epoch of the book.
    pub epoch: u64,
    /// No batch of this epoch was opened yet.
    pub fresh: bool,
    /// Mirror of the bids.
    pub bids: Seq<(Px, Qty)>,
    /// Mirror of the asks.
    pub asks: Seq<(Px, Qty)>,
    /// Levels changed by the diff in progress.
    pub staging: Seq<((Side, Px), (Qty, Qty))>,
    /// Open batches, oldest first.
    pub batches: Seq<BatchState>,
    /// End of the last batch opened.
    pub last_end: u64,
    /// End of the last batch closed.
    pub finalized_until: u64,
    /// Trades held, by time and id.
    pub trades: Seq<((u64, u64), TradeRec)>,
    /// Trades held that no batch counted yet.
    pub uncounted: u64,
    /// Exchange time of the last trade of each line.
    pub lines: Seq<(u64, u64)>,
    /// Depth time reached.
    pub depth_wm: u64,
    /// The counters.
    pub stats: AlignerStats,
}

/// The state of a new aligner.
pub open spec fn align_start<S>(cfg: AlignerConfig, sink: S) -> AlignState<S> {
    AlignState {
        cfg,
        sink,
        live: false,
        epoch: 0,
        fresh: true,
        bids: Seq::empty(),
        asks: Seq::empty(),
        staging: Seq::empty(),
        batches: Seq::empty(),
        last_end: 0,
        finalized_until: 0,
        trades: Seq::empty(),
        uncounted: 0,
        lines: Seq::empty(),
        depth_wm: 0,
        stats: AlignerStats::zero(),
    }
}

/// `max(0, a - b)`.
pub open spec fn excess(a: int, b: int) -> Qty {
    Qty(
        if a > b {
            clamp_i64(a - b) as i64
        } else {
            0
        },
    )
}

/// Saturating sum of two quantities.
pub open spec fn plus(a: Qty, b: Qty) -> Qty {
    Qty(clamp_i64(a.0 + b.0) as i64)
}

/// A trade with time `ts` lies in the batch, by its nominal time.
pub open spec fn nominal(b: BatchState, ts: u64) -> bool {
    b.start < ts <= b.end
}

/// A trade with time `ts` lies in the batch whatever its error up to `d`.
pub open spec fn certain(b: BatchState, d: u64, ts: u64) -> bool {
    b.start + d < ts && ts <= clamp_u64(b.end - d)
}

/// A trade with time `ts` may lie in the batch, with an error up to `d`.
pub open spec fn possible(b: BatchState, d: u64, ts: u64) -> bool {
    clamp_u64(b.start - d) < ts && ts <= b.end + d
}

/// The sums of a level after one more trade.
pub open spec fn acc_next(a: Acc, b: BatchState, d: u64, ts: u64, t: TradeRec) -> Acc {
    let counts = nominal(b, ts) && !t.counted;
    Acc {
        hi: plus(a.hi, t.qty_n),
        lo: if certain(b, d, ts) {
            plus(a.lo, t.qty_n)
        } else {
            a.lo
        },
        executed: if counts {
            plus(a.executed, t.qty_n)
        } else {
            a.executed
        },
        rpi: if counts {
            plus(a.rpi, t.rpi)
        } else {
            a.rpi
        },
        fills: if counts {
            clamp_u64(a.fills + t.fills) as u64
        } else {
            a.fills
        },
        trades: if counts {
            inc(a.trades)
        } else {
            a.trades
        },
    }
}

/// The sums at each level of the trades that may lie in the batch.
pub open spec fn sums(trades: Seq<((u64, u64), TradeRec)>, b: BatchState, d: u64) -> Seq<
    ((Side, Px), Acc),
>
    decreases trades.len(),
{
    if trades.len() == 0 {
        Seq::empty()
    } else {
        let s = sums(trades.drop_last(), b, d);
        let ((ts, id), t) = trades.last();
        if possible(b, d, ts) {
            let a = match find(s, t.key) {
                Some(a) => a,
                None => Acc::zero(),
            };
            put(s, t.key, acc_next(a, b, d, ts, t))
        } else {
            s
        }
    }
}

/// The trades once those that lie nominally in the batch are counted.
pub open spec fn counted_in(trades: Seq<((u64, u64), TradeRec)>, b: BatchState, d: u64) -> Seq<
    ((u64, u64), TradeRec),
> {
    Seq::new(
        trades.len(),
        |i: int|
            {
                let ((ts, id), t) = trades[i];
                (
                    (ts, id),
                    TradeRec {
                        counted: t.counted || (possible(b, d, ts) && nominal(b, ts)),
                        ..t
                    },
                )
            },
    )
}

/// How many trades the batch counts.
pub open spec fn n_counted(trades: Seq<((u64, u64), TradeRec)>, b: BatchState, d: u64) -> nat
    decreases trades.len(),
{
    if trades.len() == 0 {
        0
    } else {
        let ((ts, id), t) = trades.last();
        n_counted(trades.drop_last(), b, d) + (if possible(b, d, ts) && nominal(b, ts)
            && !t.counted {
            1nat
        } else {
            0nat
        })
    }
}

/// How many of the trades that the batch counts may belong to a neighbour.
pub open spec fn n_ambiguous(trades: Seq<((u64, u64), TradeRec)>, b: BatchState, d: u64) -> nat
    decreases trades.len(),
{
    if trades.len() == 0 {
        0
    } else {
        let ((ts, id), t) = trades.last();
        n_ambiguous(trades.drop_last(), b, d) + (if possible(b, d, ts) && nominal(b, ts)
            && !t.counted && !certain(b, d, ts) {
            1nat
        } else {
            0nat
        })
    }
}

/// The changed levels, with no trades.
pub open spec fn changed_keys(changes: Seq<((Side, Px), (Qty, Qty))>) -> Seq<
    ((Side, Px), (Option<(Qty, Qty)>, Acc)),
> {
    Seq::new(changes.len(), |i: int| (changes[i].0, (Some(changes[i].1), Acc::zero())))
}

/// The ordered union of the levels that changed and of those with trades.
pub open spec fn all_keys(
    changes: Seq<((Side, Px), (Qty, Qty))>,
    acc: Seq<((Side, Px), Acc)>,
) -> Seq<((Side, Px), (Option<(Qty, Qty)>, Acc))>
    decreases acc.len(),
{
    if acc.len() == 0 {
        changed_keys(changes)
    } else {
        let s = all_keys(changes, acc.drop_last());
        let (key, a) = acc.last();
        put(
            s,
            key,
            (
                match find(s, key) {
                    Some(e) => e.0,
                    None => None,
                },
                a,
            ),
        )
    }
}

/// The quantity of a level before the batches `batches[i..]`, given the mirror.
pub open spec fn quantity_before(
    batches: Seq<BatchState>,
    i: int,
    bids: Seq<(Px, Qty)>,
    asks: Seq<(Px, Qty)>,
    key: (Side, Px),
) -> Qty
    decreases batches.len() - i,
{
    if i < 0 || i >= batches.len() {
        match key.0 {
            Side::Bid => ladder_qty(bids, key.1),
            Side::Ask => ladder_qty(asks, key.1),
        }
    } else {
        match find(batches[i].changes, key) {
            Some(qq) => qq.0,
            None => quantity_before(batches, i + 1, bids, asks, key),
        }
    }
}

/// The flow of one level of the batch `b`, where `s` no longer holds the batch.
pub open spec fn flow_of<S>(
    s: AlignState<S>,
    b: BatchState,
    e: ((Side, Px), (Option<(Qty, Qty)>, Acc)),
) -> LevelFlow {
    let key = e.0;
    let a = e.1.1;
    let q = quantity_before(s.batches, 0, s.bids, s.asks, key);
    let (q0, q1) = match e.1.0 {
        Some(qq) => qq,
        None => (q, q),
    };
    let clean = b.contaminated is None;
    LevelFlow {
        epoch: s.epoch,
        side: key.0,
        px: key.1,
        start_ts_ms: b.start,
        end_ts_ms: b.end,
        q0,
        q1,
        executed: a.executed,
        exec_lo: a.lo,
        exec_hi: a.hi,
        exec_rpi: a.rpi,
        n_fills: a.fills,
        n_trades: a.trades,
        no_visible_min: if clean {
            excess(a.lo.0 as int, q0.0 as int)
        } else {
            Qty(0)
        },
        cancelado_min: if clean {
            excess(q0.0 as int, plus(a.hi, q1).0 as int)
        } else {
            Qty(0)
        },
        agregado_min: if clean {
            excess(q1.0 as int, q0.0 as int)
        } else {
            Qty(0)
        },
        clean,
    }
}

/// The flows of the batch `b`, in order of side and price.
pub open spec fn flows_of<S>(s: AlignState<S>, b: BatchState) -> Seq<LevelFlow> {
    let keys = all_keys(b.changes, sums(s.trades, b, s.cfg.boundary_slack_ms));
    Seq::new(keys.len(), |i: int| flow_of(s, b, keys[i]))
}

/// The state of a consumer after some flows, in order.
pub open spec fn fed_flows<K: FlowSink>(s: K::State, flows: Seq<LevelFlow>) -> K::State
    decreases flows.len(),
{
    if flows.len() == 0 {
        s
    } else {
        K::flow_next(fed_flows::<K>(s, flows.drop_last()), flows.last())
    }
}

/// Trades that no open batch can use any more leave the store.
pub open spec fn pruned<S>(s: AlignState<S>) -> AlignState<S>
    decreases s.trades.len(),
{
    if s.trades.len() == 0 || s.trades[0].0.0 + s.cfg.boundary_slack_ms > s.finalized_until {
        s
    } else {
        let rest = AlignState { trades: s.trades.skip(1), ..s };
        if s.trades[0].1.counted {
            pruned(rest)
        } else {
            pruned(
                AlignState {
                    uncounted: clamp_u64(s.uncounted - 1) as u64,
                    stats: AlignerStats { late: inc(s.stats.late), ..s.stats },
                    ..rest
                },
            )
        }
    }
}

/// The oldest open batch closes: its trades are counted, its flows and its
/// summary go to the consumer.
pub open spec fn unpruned<K: FlowSink>(s0: AlignState<K::State>) -> AlignState<K::State> {
    let b = s0.batches[0];
    let s = AlignState { batches: s0.batches.skip(1), ..s0 };
    let d = s.cfg.boundary_slack_ms;
    let n = n_counted(s.trades, b, d);
    let flows = flows_of(s, b);
    let clean = b.contaminated is None;
    let info = BatchInfo {
        epoch: s.epoch,
        start_ts_ms: b.start,
        end_ts_ms: b.end,
        levels_changed: crate::num::clamp(0, b.changes.len() as int, u32::MAX as int) as u32,
        trades: clamp_u64(n as int) as u64,
        contaminated: b.contaminated,
    };
    AlignState {
        trades: counted_in(s.trades, b, d),
        uncounted: clamp_u64(s.uncounted - n) as u64,
        sink: K::batch_next(fed_flows::<K>(s.sink, flows), info),
        finalized_until: b.end,
        stats: AlignerStats {
            ambiguous: clamp_u64(
                s.stats.ambiguous + n_ambiguous(s.trades, b, d),
            ) as u64,
            aligned: if clean {
                clamp_u64(s.stats.aligned + n) as u64
            } else {
                s.stats.aligned
            },
            batches_clean: if clean {
                inc(s.stats.batches_clean)
            } else {
                s.stats.batches_clean
            },
            contaminated: if clean {
                s.stats.contaminated
            } else {
                clamp_u64(s.stats.contaminated + n) as u64
            },
            batches_contaminated: if clean {
                s.stats.batches_contaminated
            } else {
                inc(s.stats.batches_contaminated)
            },
            flows_emitted: clamp_u64(s.stats.flows_emitted + flows.len()) as u64,
            ..s.stats
        },
        ..s
    }
}

/// The oldest open batch, if any, closes, and the trades of no more use leave.
pub open spec fn close_next<K: FlowSink>(s: AlignState<K::State>) -> AlignState<K::State> {
    if s.batches.len() == 0 {
        s
    } else {
        pruned(unpruned::<K>(s))
    }
}

/// The furthest mark among the lines.
pub open spec fn front_mark(lines: Seq<(u64, u64)>) -> u64
    decreases lines.len(),
{
    if lines.len() == 0 {
        0
    } else {
        let m = front_mark(lines.drop_last());
        if m < lines.last().1 {
            lines.last().1
        } else {
            m
        }
    }
}

/// The lowest mark among the lines that are at most [`LINE_LAG_MS`] behind `front`.
pub open spec fn rear_mark(lines: Seq<(u64, u64)>, front: u64) -> u64
    decreases lines.len(),
{
    if lines.len() == 0 {
        front
    } else {
        let m = rear_mark(lines.drop_last(), front);
        let t = lines.last().1;
        if t + LINE_LAG_MS >= front && t < m {
            t
        } else {
            m
        }
    }
}

/// Every live line delivered a trade of this exchange time or later.
pub open spec fn trade_mark(lines: Seq<(u64, u64)>) -> u64 {
    rear_mark(lines, front_mark(lines))
}

/// The trades of the oldest batch have all come.
pub open spec fn by_trades<S>(s: AlignState<S>) -> bool {
    trade_mark(s.lines) > s.batches[0].end + 2 * s.cfg.boundary_slack_ms
}

/// The depth moved on enough without them.
pub open spec fn by_timeout<S>(s: AlignState<S>) -> bool {
    s.depth_wm >= s.batches[0].end + s.cfg.boundary_slack_ms + s.cfg.watermark_ms
}

/// Pruning touches the trades and their counters only.
pub proof fn lemma_pruned<S>(s: AlignState<S>)
    ensures
        pruned(s) == (AlignState {
            trades: pruned(s).trades,
            uncounted: pruned(s).uncounted,
            stats: AlignerStats { late: pruned(s).stats.late, ..s.stats },
            ..s
        }),
    decreases s.trades.len(),
{
    if s.trades.len() > 0 && s.trades[0].0.0 + s.cfg.boundary_slack_ms <= s.finalized_until {
        let rest = AlignState { trades: s.trades.skip(1), ..s };
        if s.trades[0].1.counted {
            lemma_pruned(rest);
        } else {
            lemma_pruned(
                AlignState {
                    uncounted: clamp_u64(s.uncounted - 1) as u64,
                    stats: AlignerStats { late: inc(s.stats.late), ..s.stats },
                    ..rest
                },
            );
        }
    }
}

/// Closing takes the oldest batch away, and keeps the rest of the book-keeping.
pub proof fn lemma_close<K: FlowSink>(s: AlignState<K::State>)
    ensures
        s.batches.len() > 0 ==> close_next::<K>(s).batches == s.batches.skip(1)
            && close_next::<K>(s).finalized_until == s.batches[0].end,
        close_next::<K>(s).cfg == s.cfg,
        close_next::<K>(s).lines == s.lines,
        close_next::<K>(s).depth_wm == s.depth_wm,
        close_next::<K>(s).bids == s.bids,
        close_next::<K>(s).asks == s.asks,
        close_next::<K>(s).staging == s.staging,
        close_next::<K>(s).last_end == s.last_end,
        close_next::<K>(s).live == s.live,
        close_next::<K>(s).epoch == s.epoch,
        close_next::<K>(s).fresh == s.fresh,
        close_next::<K>(s).stats.trades_rx == s.stats.trades_rx,
{
    if s.batches.len() > 0 {
        lemma_pruned(unpruned::<K>(s));
    }
}

/// The batches that can close do so; the last one stays open.
pub open spec fn ready_next<K: FlowSink>(s: AlignState<K::State>) -> AlignState<K::State>
    decreases s.batches.len(),
{
    proof {
        lemma_close::<K>(
            AlignState {
                stats: AlignerStats { closed_by_trades: inc(s.stats.closed_by_trades), ..s.stats },
                ..s
            },
        );
        lemma_close::<K>(
            AlignState {
                stats: AlignerStats {
                    closed_by_timeout: inc(s.stats.closed_by_timeout),
                    ..s.stats
                },
                ..s
            },
        );
    }
    if s.batches.len() < 2 {
        s
    } else if by_trades(s) {
        ready_next::<K>(
            close_next::<K>(
                AlignState {
                    stats: AlignerStats {
                        closed_by_trades: inc(s.stats.closed_by_trades),
                        ..s.stats
                    },
                    ..s
                },
            ),
        )
    } else if by_timeout(s) {
        ready_next::<K>(
            close_next::<K>(
                AlignState {
                    stats: AlignerStats {
                        closed_by_timeout: inc(s.stats.closed_by_timeout),
                        ..s.stats
                    },
                    ..s
                },
            ),
        )
    } else {
        s
    }
}

/// The batches after the store of trades overflowed.
pub open spec fn overflowed(batches: Seq<BatchState>) -> Seq<BatchState> {
    Seq::new(
        batches.len(),
        |i: int|
            BatchState {
                contaminated: match batches[i].contaminated {
                    Some(c) => Some(c),
                    None => Some(Contamination::TradeOverflow),
                },
                ..batches[i]
            },
    )
}

/// The store of trades is cut to its limit, oldest first.
pub open spec fn evicted<S>(s: AlignState<S>) -> AlignState<S>
    decreases s.trades.len(),
{
    if s.trades.len() <= s.cfg.max_trades {
        s
    } else {
        let rest = AlignState { trades: s.trades.skip(1), ..s };
        if s.trades[0].1.counted {
            evicted(rest)
        } else {
            evicted(
                AlignState {
                    uncounted: clamp_u64(s.uncounted - 1) as u64,
                    batches: overflowed(s.batches),
                    stats: AlignerStats { overflow: inc(s.stats.overflow), ..s.stats },
                    ..rest
                },
            )
        }
    }
}

/// The marks after a line delivered a trade of exchange time `ts`.
pub open spec fn marked(lines: Seq<(u64, u64)>, line: u8, ts: u64) -> Seq<(u64, u64)> {
    match find(lines, line as u64) {
        Some(t) if t >= ts => lines,
        _ => put(lines, line as u64, ts),
    }
}

/// How the aligner keeps a trade.
pub open spec fn rec_of(t: AggTrade) -> TradeRec {
    TradeRec {
        key: (
            match t.aggressor {
                Aggressor::Buy => Side::Ask,
                Aggressor::Sell => Side::Bid,
            },
            t.px,
        ),
        qty_n: match t.qty_normal {
            Some(n) => n,
            None => t.qty,
        },
        rpi: match t.qty_normal {
            Some(n) => Qty(clamp_i64(t.qty.0 - n.0) as i64),
            None => Qty(0),
        },
        fills: t.fills() as u64,
        counted: false,
    }
}

/// What [`Aligner::on_trade`] does.
pub open spec fn on_trade_next<K: FlowSink>(
    s0: AlignState<K::State>,
    t: AggTrade,
) -> AlignState<K::State> {
    let c = AlignerStats { trades_rx: inc(s0.stats.trades_rx), ..s0.stats };
    if !s0.live {
        AlignState { stats: AlignerStats { syncing: inc(c.syncing), ..c }, ..s0 }
    } else {
        let ts = t.trade_ts_ms;
        let d = s0.cfg.boundary_slack_ms;
        let s = AlignState { lines: marked(s0.lines, t.rx.line, t.exch_ts_ms), stats: c, ..s0 };
        if s.finalized_until > 0 && ts <= s.finalized_until {
            AlignState { stats: AlignerStats { late: inc(c.late), ..c }, ..s }
        } else {
            let c1 = if d > 0 && s.finalized_until > 0 && ts <= s.finalized_until + d {
                AlignerStats { late_ambiguous: inc(c.late_ambiguous), ..c }
            } else {
                c
            };
            if holds(s.trades, (ts, t.agg_id)) {
                AlignState { stats: AlignerStats { duplicate: inc(c1.duplicate), ..c1 }, ..s }
            } else {
                let kept = evicted(
                    AlignState {
                        trades: put(s.trades, (ts, t.agg_id), rec_of(t)),
                        uncounted: inc(s.uncounted),
                        stats: c1,
                        ..s
                    },
                );
                ready_next::<K>(kept)
            }
        }
    }
}

/// What [`Aligner::observe_line`] does.
pub open spec fn observe_line_next<K: FlowSink>(
    s: AlignState<K::State>,
    line: u8,
    exch_ts_ms: u64,
) -> AlignState<K::State> {
    if s.live {
        ready_next::<K>(AlignState { lines: marked(s.lines, line, exch_ts_ms), ..s })
    } else {
        s
    }
}

/// What the aligner does when a level changes.
pub open spec fn on_level_next<S>(
    s: AlignState<S>,
    side: Side,
    px: Px,
    prev: Qty,
    new: Qty,
) -> AlignState<S> {
    let cur = match side {
        Side::Bid => ladder_qty(s.bids, px),
        Side::Ask => ladder_qty(s.asks, px),
    };
    AlignState {
        bids: match side {
            Side::Bid => ladder_set(s.bids, px, new),
            Side::Ask => s.bids,
        },
        asks: match side {
            Side::Bid => s.asks,
            Side::Ask => ladder_set(s.asks, px, new),
        },
        stats: if cur != prev {
            AlignerStats { mirror_mismatch: inc(s.stats.mirror_mismatch), ..s.stats }
        } else {
            s.stats
        },
        staging: staged(s.staging, (side, px), prev, new),
        ..s
    }
}

/// One more change of a level: its first quantity stays, its last one is replaced.
pub open spec fn staged(
    changes: Seq<((Side, Px), (Qty, Qty))>,
    key: (Side, Px),
    prev: Qty,
    new: Qty,
) -> Seq<((Side, Px), (Qty, Qty))> {
    match find(changes, key) {
        Some(e) => put(changes, key, (e.0, new)),
        None => put(changes, key, (prev, new)),
    }
}

/// The changes of two diffs of the same time.
pub open spec fn merged(
    changes: Seq<((Side, Px), (Qty, Qty))>,
    more: Seq<((Side, Px), (Qty, Qty))>,
) -> Seq<((Side, Px), (Qty, Qty))>
    decreases more.len(),
{
    if more.len() == 0 {
        changes
    } else {
        let (key, (p, n)) = more.last();
        staged(merged(changes, more.drop_last()), key, p, n)
    }
}

/// The oldest batches close while there are too many.
pub open spec fn forced_next<K: FlowSink>(s: AlignState<K::State>) -> AlignState<K::State>
    decreases s.batches.len(),
{
    proof {
        lemma_close::<K>(
            AlignState {
                stats: AlignerStats { closed_forced: inc(s.stats.closed_forced), ..s.stats },
                ..s
            },
        );
    }
    if s.batches.len() <= s.cfg.max_open_batches {
        s
    } else {
        forced_next::<K>(
            close_next::<K>(
                AlignState {
                    stats: AlignerStats { closed_forced: inc(s.stats.closed_forced), ..s.stats },
                    ..s
                },
            ),
        )
    }
}

/// The diff joins the last batch, if it has its time, or opens a new one.
pub open spec fn batched<S>(s0: AlignState<S>, d: DepthDiff) -> AlignState<S> {
    let raw = match d.match_ts_ms {
        Some(t) => t,
        None => d.exch_ts_ms,
    };
    let ts = if raw < s0.last_end {
        s0.last_end
    } else {
        raw
    };
    let c = if raw < s0.last_end {
        AlignerStats { ts_regressions: inc(s0.stats.ts_regressions), ..s0.stats }
    } else {
        s0.stats
    };
    let s = AlignState {
        stats: c,
        depth_wm: if s0.depth_wm < ts {
            ts
        } else {
            s0.depth_wm
        },
        staging: Seq::empty(),
        ..s0
    };
    let n = s.batches.len();
    let t = if n > 0 && s.batches.last().end == ts {
        AlignState {
            batches: s.batches.update(
                n - 1,
                BatchState {
                    changes: merged(s.batches.last().changes, s0.staging),
                    ..s.batches.last()
                },
            ),
            ..s
        }
    } else {
        AlignState {
            batches: s.batches.push(
                BatchState {
                    start: s.last_end,
                    end: ts,
                    contaminated: if s.fresh {
                        Some(Contamination::EpochStart)
                    } else {
                        None
                    },
                    changes: s0.staging,
                },
            ),
            fresh: false,
            last_end: ts,
            ..s
        }
    };
    AlignState {
        stats: AlignerStats {
            max_open_batches_seen: if t.stats.max_open_batches_seen < t.batches.len() {
                clamp_u64(t.batches.len() as int) as u64
            } else {
                t.stats.max_open_batches_seen
            },
            ..t.stats
        },
        ..t
    }
}

/// What the aligner does when a diff was applied.
pub open spec fn on_diff_next<K: FlowSink>(
    s: AlignState<K::State>,
    d: DepthDiff,
) -> AlignState<K::State> {
    if !s.live {
        AlignState { staging: Seq::empty(), ..s }
    } else {
        let t = batched(s, d);
        ready_next::<K>(forced_next::<K>(t))
    }
}

/// What the aligner does when the book is rebuilt.
pub open spec fn on_rebuild_next<K: FlowSink>(
    s: AlignState<K::State>,
    epoch: u64,
    book: BookState,
) -> AlignState<K::State> {
    AlignState {
        live: true,
        epoch,
        fresh: true,
        bids: book.bids,
        asks: book.asks,
        staging: Seq::empty(),
        batches: Seq::empty(),
        last_end: 0,
        finalized_until: 0,
        sink: K::rebuild_next(s.sink, epoch, book),
        ..s
    }
}

/// What the aligner does when synchronisation is lost.
pub open spec fn on_invalidate_next<K: FlowSink>(
    s: AlignState<K::State>,
    epoch: u64,
    reason: ResyncReason,
) -> AlignState<K::State> {
    AlignState {
        stats: AlignerStats {
            batches_contaminated: clamp_u64(
                s.stats.batches_contaminated + s.batches.len(),
            ) as u64,
            invalidated: clamp_u64(s.stats.invalidated + s.uncounted) as u64,
            ..s.stats
        },
        uncounted: 0,
        trades: Seq::empty(),
        batches: Seq::empty(),
        staging: Seq::empty(),
        bids: Seq::empty(),
        asks: Seq::empty(),
        live: false,
        sink: K::invalidate_next(s.sink, epoch, reason),
        ..s
    }
}

/// `max(0, a - b)`.
fn pos(a: Qty, b: Qty) -> (r: Qty)
    ensures
        r == excess(a.0 as int, b.0 as int),
{
    if a.0 > b.0 {
        Qty(sub_i64(a.0, b.0))
    } else {
        Qty(0)
    }
}

/// Whether a trade lies surely within the batch.
fn is_certain(b: &Batch, d: u64, ts: u64) -> (r: bool)
    ensures
        r == certain(b@, d, ts),
{
    (b.start as u128 + d as u128) < ts as u128 && ts <= sub_u64(b.end, d)
}

/// Whether a trade may lie within the batch.
fn is_possible(b: &Batch, d: u64, ts: u64) -> (r: bool)
    ensures
        r == possible(b@, d, ts),
{
    sub_u64(b.start, d) < ts && ts as u128 <= b.end as u128 + d as u128
}

/// The sums of a level after one more trade.
fn add_trade(a: Acc, b: &Batch, d: u64, ts: u64, t: &TradeRec) -> (r: Acc)
    ensures
        r == acc_next(a, b@, d, ts, *t),
{
    let mut r = a;
    r.hi = Qty(add_i64(a.hi.0, t.qty_n.0));
    if is_certain(b, d, ts) {
        r.lo = Qty(add_i64(a.lo.0, t.qty_n.0));
    }
    if b.start < ts && ts <= b.end && !t.counted {
        r.executed = Qty(add_i64(a.executed.0, t.qty_n.0));
        r.rpi = Qty(add_i64(a.rpi.0, t.rpi.0));
        r.fills = add_u64(a.fills, t.fills);
        r.trades = add_u64(a.trades, 1);
    }
    r
}

/// What the trades held say of a batch.
struct Tally {
    acc: SortedMap<(Side, Px), Acc>,
    counted: u64,
    ambiguous: u64,
}

/// Counts the trades of a batch.
fn tally(trades: &mut SortedMap<(u64, u64), TradeRec>, b: &Batch, d: u64) -> (r: Tally)
    ensures
        final(trades)@ == counted_in(old(trades)@, b@, d),
        r.acc@ == sums(old(trades)@, b@, d),
        r.counted == n_counted(old(trades)@, b@, d),
        r.ambiguous == n_ambiguous(old(trades)@, b@, d),
{
    let ghost all = trades@;
    let n = trades.len();
    let mut acc: SortedMap<(Side, Px), Acc> = SortedMap::new();
    let mut counted: u64 = 0;
    let mut ambiguous: u64 = 0;
    let mut i: usize = 0;
    while i < n
        invariant
            i <= n == all.len(),
            all == old(trades)@,
            trades@ == counted_in(all.take(i as int), b@, d) + all.skip(i as int),
            acc@ == sums(all.take(i as int), b@, d),
            counted == n_counted(all.take(i as int), b@, d),
            ambiguous == n_ambiguous(all.take(i as int), b@, d),
            counted <= i,
            ambiguous <= i,
        decreases n - i,
    {
        let ts: u64 = trades.key_at(i).0;
        let t = *trades.value_at(i);
        proof {
            assert(trades@[i as int] == all[i as int]);
            assert(all.take(i + 1).drop_last() =~= all.take(i as int));
        }
        if is_possible(b, d, ts) {
            let a = match acc.get(&t.key) {
                Some(a) => *a,
                None => Acc {
                    executed: Qty(0),
                    lo: Qty(0),
                    hi: Qty(0),
                    rpi: Qty(0),
                    fills: 0,
                    trades: 0,
                },
            };
            acc.insert(t.key, add_trade(a, b, d, ts, &t));
            if b.start < ts && ts <= b.end && !t.counted {
                let mut u = t;
                u.counted = true;
                trades.set_value_at(i, u);
                counted += 1;
                if !is_certain(b, d, ts) {
                    ambiguous += 1;
                }
            }
        }
        proof {
            assert(trades@ =~= counted_in(all.take(i + 1), b@, d) + all.skip(i + 1)) by {
                assert forall|j: int| 0 <= j < all.len() implies trades@[j] == (counted_in(
                    all.take(i + 1),
                    b@,
                    d,
                ) + all.skip(i + 1))[j] by {
                    if j < i {
                        assert(all.take(i + 1)[j] == all.take(i as int)[j]);
                    }
                }
            }
        }
        i += 1;
    }
    proof {
        assert(all.take(n as int) =~= all);
        assert(all.skip(n as int) =~= Seq::empty());
        assert(trades@ =~= counted_in(all, b@, d));
    }
    Tally { acc, counted, ambiguous }
}

/// The ordered union of the levels that changed and of those with trades.
fn union_keys(
    changes: &SortedMap<(Side, Px), (Qty, Qty)>,
    acc: &SortedMap<(Side, Px), Acc>,
) -> (m: SortedMap<(Side, Px), (Option<(Qty, Qty)>, Acc)>)
    ensures
        m@ == all_keys(changes@, acc@),
{
    let mut m: SortedMap<(Side, Px), (Option<(Qty, Qty)>, Acc)> = SortedMap::new();
    let n = changes.len();
    let mut i: usize = 0;
    while i < n
        invariant
            i <= n == changes@.len(),
            sorted(changes@),
            m@ == changed_keys(changes@).take(i as int),
        decreases n - i,
    {
        let key = *changes.key_at(i);
        let qq = *changes.value_at(i);
        let none = Acc {
            executed: Qty(0),
            lo: Qty(0),
            hi: Qty(0),
            rpi: Qty(0),
            fills: 0,
            trades: 0,
        };
        proof {
            let s = m@;
            assert forall|j: int| 0 <= j < s.len() implies crate::ordmap::key_lt(
                #[trigger] s[j].0,
                key,
            ) by {
                assert(s[j].0 == changes@[j].0);
            }
            crate::ordmap::lemma_append(s, key, (Some(qq), none));
            assert(changed_keys(changes@).take(i + 1) =~= s.push((key, (Some(qq), none))));
        }
        m.insert(key, (Some(qq), none));
        i += 1;
    }
    assert(m@ =~= changed_keys(changes@));
    let k = acc.len();
    let mut j: usize = 0;
    assert(acc@.take(0) =~= Seq::empty());
    while j < k
        invariant
            j <= k == acc@.len(),
            m@ == all_keys(changes@, acc@.take(j as int)),
        decreases k - j,
    {
        let key = *acc.key_at(j);
        let a = *acc.value_at(j);
        assert(acc@.take(j + 1).drop_last() =~= acc@.take(j as int));
        let qq = match m.get(&key) {
            Some(e) => e.0,
            None => None,
        };
        m.insert(key, (qq, a));
        j += 1;
    }
    assert(acc@.take(k as int) =~= acc@);
    m
}

/// The quantity of a level on a mirror.
fn mirror_qty(m: &SortedMap<Px, Qty>, px: Px) -> (r: Qty)
    ensures
        r == ladder_qty(m@, px),
{
    match m.get(&px) {
        Some(q) => *q,
        None => Qty(0),
    }
}

/// Fixes a level on a mirror.
fn mirror_set(m: &mut SortedMap<Px, Qty>, px: Px, qty: Qty)
    ensures
        final(m)@ == ladder_set(old(m)@, px, qty),
{
    if qty.is_zero() {
        let _ = m.remove(&px);
    } else {
        m.insert(px, qty);
    }
}

/// One more change of a level.
fn stage(changes: &mut SortedMap<(Side, Px), (Qty, Qty)>, key: (Side, Px), prev: Qty, new: Qty)
    ensures
        final(changes)@ == staged(old(changes)@, key, prev, new),
{
    let first = match changes.get(&key) {
        Some(e) => e.0,
        None => prev,
    };
    changes.insert(key, (first, new));
}

/// What a queue of batches holds.
spec fn views(s: Seq<Batch>) -> Seq<BatchState> {
    Seq::new(s.len(), |i: int| s[i]@)
}

/// Aligner. It is the observer of the synchronised book; trades come by
/// [`Aligner::on_trade`].
pub struct Aligner<K: FlowSink = ()> {
    cfg: AlignerConfig,
    sink: K,
    live: bool,
    epoch: u64,
    fresh: bool,
    bids: SortedMap<Px, Qty>,
    asks: SortedMap<Px, Qty>,
    staging: SortedMap<(Side, Px), (Qty, Qty)>,
    batches: VecDeque<Batch>,
    last_end: u64,
    finalized_until: u64,
    trades: SortedMap<(u64, u64), TradeRec>,
    uncounted: u64,
    lines: SortedMap<u64, u64>,
    depth_wm: u64,
    stats: AlignerStats,
}

impl<K: FlowSink> Aligner<K> {
    /// What the aligner holds.
    pub closed spec fn content(&self) -> AlignState<K::State> {
        AlignState {
            cfg: self.cfg,
            sink: self.sink.state(),
            live: self.live,
            epoch: self.epoch,
            fresh: self.fresh,
            bids: self.bids@,
            asks: self.asks@,
            staging: self.staging@,
            batches: views(self.batches@),
            last_end: self.last_end,
            finalized_until: self.finalized_until,
            trades: self.trades@,
            uncounted: self.uncounted,
            lines: self.lines@,
            depth_wm: self.depth_wm,
            stats: self.stats,
        }
    }

    /// A new aligner (out of sync until the book is first rebuilt).
    pub fn new(cfg: AlignerConfig, sink: K) -> (r: Self)
        ensures
            r.content() == align_start(cfg, sink.state()),
    {
        let r = Aligner {
            cfg,
            sink,
            live: false,
            epoch: 0,
            fresh: true,
            bids: SortedMap::new(),
            asks: SortedMap::new(),
            staging: SortedMap::new(),
            batches: VecDeque::new(),
            last_end: 0,
            finalized_until: 0,
            trades: SortedMap::new(),
            uncounted: 0,
            lines: SortedMap::new(),
            depth_wm: 0,
            stats: AlignerStats::default(),
        };
        assert(r.content() =~= align_start(cfg, sink.state()));
        r
    }

    /// The counters.
    pub fn stats(&self) -> (r: &AlignerStats)
        ensures
            *r == self.content().stats,
    {
        &self.stats
    }

    /// The consumer.
    pub fn sink(&self) -> (r: &K)
        ensures
            r.state() == self.content().sink,
    {
        &self.sink
    }

    /// The consumer, to be changed.
    pub fn sink_mut(&mut self) -> (r: &mut K)
        ensures
            r.state() == old(self).content().sink,
            final(self).content() == (AlignState {
                sink: final(r).state(),
                ..old(self).content()
            }),
    {
        &mut self.sink
    }

    /// Open batches.
    pub fn open_batches(&self) -> (r: usize)
        ensures
            r == self.content().batches.len(),
    {
        self.batches.len()
    }

    /// Trades held (those already counted that still serve a neighbour batch too).
    pub fn buffered_trades(&self) -> (r: usize)
        ensures
            r == self.content().trades.len(),
    {
        self.trades.len()
    }

    /// End of the last closed batch (exchange ms).
    pub fn finalized_until(&self) -> (r: u64)
        ensures
            r == self.content().finalized_until,
    {
        self.finalized_until
    }

    /// Trades received less those accounted for.
    pub fn unaccounted(&self) -> (r: i64)
        ensures
            r == clamp_i64(
                self.content().stats.trades_rx - self.content().stats.settled()
                    - self.content().uncounted,
            ),
    {
        let s = &self.stats;
        let settled: i128 = s.aligned as i128 + s.contaminated as i128 + s.late as i128
            + s.syncing as i128 + s.overflow as i128 + s.invalidated as i128 + s.duplicate as i128;
        to_i64(s.trades_rx as i128 - settled - self.uncounted as i128)
    }

    /// A trade comes (already unique across lines).
    pub fn on_trade(&mut self, t: &AggTrade)
        ensures
            final(self).content() == on_trade_next::<K>(old(self).content(), *t),
    {
        self.stats.trades_rx = add_u64(self.stats.trades_rx, 1);
        if !self.live {
            self.stats.syncing = add_u64(self.stats.syncing, 1);
            return;
        }
        self.mark(t.rx.line, t.exch_ts_ms);
        let ts = t.trade_ts_ms;
        if self.finalized_until > 0 && ts <= self.finalized_until {
            self.stats.late = add_u64(self.stats.late, 1);
            return;
        }
        let d = self.cfg.boundary_slack_ms;
        if d > 0 && self.finalized_until > 0 && ts as u128 <= self.finalized_until as u128
            + d as u128 {
            self.stats.late_ambiguous = add_u64(self.stats.late_ambiguous, 1);
        }
        if self.trades.contains_key(&(ts, t.agg_id)) {
            self.stats.duplicate = add_u64(self.stats.duplicate, 1);
            return;
        }
        let side = match t.aggressor {
            Aggressor::Buy => Side::Ask,
            Aggressor::Sell => Side::Bid,
        };
        let rec = TradeRec {
            key: (side, t.px),
            qty_n: match t.qty_normal {
                Some(n) => n,
                None => t.qty,
            },
            rpi: match t.qty_rpi() {
                Some(q) => q,
                None => Qty(0),
            },
            fills: t.n_fills(),
            counted: false,
        };
        self.trades.insert((ts, t.agg_id), rec);
        self.uncounted = add_u64(self.uncounted, 1);
        self.evict();
        self.close_ready();
    }

    /// A line delivered a trade of exchange time `exch_ts_ms`, new or repeated.
    pub fn observe_line(&mut self, line: u8, exch_ts_ms: u64)
        ensures
            final(self).content() == observe_line_next::<K>(
                old(self).content(),
                line,
                exch_ts_ms,
            ),
    {
        if self.live {
            self.mark(line, exch_ts_ms);
            self.close_ready();
        }
    }

    /// Moves the mark of a line forward.
    fn mark(&mut self, line: u8, ts: u64)
        ensures
            final(self).content() == (AlignState {
                lines: marked(old(self).content().lines, line, ts),
                ..old(self).content()
            }),
    {
        let key: u64 = line as u64;
        let behind = match self.lines.get(&key) {
            Some(t) => *t < ts,
            None => true,
        };
        if behind {
            self.lines.insert(key, ts);
        }
    }

    /// Cuts the store of trades to its limit.
    fn evict(&mut self)
        ensures
            final(self).content() == evicted(old(self).content()),
    {
        while self.trades.len() > self.cfg.max_trades
            invariant
                evicted(self.content()) == evicted(old(self).content()),
            decreases self.content().trades.len(),
        {
            match self.trades.pop_first() {
                Some(e) => {
                    if !e.1.counted {
                        self.uncounted = sub_u64(self.uncounted, 1);
                        self.stats.overflow = add_u64(self.stats.overflow, 1);
                        self.contaminate();
                    }
                },
                None => {},
            }
        }
    }

    /// Marks every open batch as overflowed.
    fn contaminate(&mut self)
        ensures
            final(self).content() == (AlignState {
                batches: overflowed(old(self).content().batches),
                ..old(self).content()
            }),
    {
        let ghost all = self.batches@;
        let n = self.batches.len();
        let mut i: usize = 0;
        while i < n
            invariant
                i <= n == all.len(),
                self.batches@.len() == n,
                forall|j: int| 0 <= j < n - i ==> #[trigger] self.batches@[j] == all[i + j],
                forall|j: int|
                    0 <= j < i ==> (#[trigger] self.batches@[n - i + j])@ == overflowed(
                        views(all),
                    )[j],
                self.content() == (AlignState {
                    batches: views(self.batches@),
                    ..old(self).content()
                }),
            decreases n - i,
        {
            let ghost pre = self.batches@;
            match self.batches.pop_front() {
                Some(b) => {
                    let mut c = b;
                    if c.contaminated.is_none() {
                        c.contaminated = Some(Contamination::TradeOverflow);
                    }
                    self.batches.push_back(c);
                    proof {
                        assert(b == all[i as int]);
                        assert(c@ == overflowed(views(all))[i as int]);
                        assert forall|j: int| 0 <= j < i + 1 implies (
                        #[trigger] self.batches@[n - (i + 1) + j])@ == overflowed(
                            views(all),
                        )[j] by {
                            if j < i {
                                assert(self.batches@[n - (i + 1) + j] == pre[n - i + j]);
                            }
                        }
                    }
                },
                None => {},
            }
            i += 1;
        }
        proof {
            assert forall|j: int| 0 <= j < n implies views(self.batches@)[j] == overflowed(
                views(all),
            )[j] by {
                assert(self.batches@[n - n + j]@ == overflowed(views(all))[j]);
            }
            assert(views(self.batches@) =~= overflowed(views(all)));
        }
    }

    /// The exchange time that every live line reached.
    fn line_mark(&self) -> (r: u64)
        ensures
            r == trade_mark(self.content().lines),
    {
        let n = self.lines.len();
        let mut front: u64 = 0;
        let mut i: usize = 0;
        while i < n
            invariant
                i <= n == self.lines@.len(),
                front == front_mark(self.lines@.take(i as int)),
            decreases n - i,
        {
            let t: u64 = *self.lines.value_at(i);
            assert(self.lines@.take(i + 1).drop_last() =~= self.lines@.take(i as int));
            if front < t {
                front = t;
            }
            i += 1;
        }
        assert(self.lines@.take(n as int) =~= self.lines@);
        let mut rear: u64 = front;
        let mut j: usize = 0;
        while j < n
            invariant
                j <= n == self.lines@.len(),
                rear == rear_mark(self.lines@.take(j as int), front),
            decreases n - j,
        {
            let t: u64 = *self.lines.value_at(j);
            assert(self.lines@.take(j + 1).drop_last() =~= self.lines@.take(j as int));
            if t as u128 + LINE_LAG_MS as u128 >= front as u128 && t < rear {
                rear = t;
            }
            j += 1;
        }
        assert(self.lines@.take(n as int) =~= self.lines@);
        rear
    }

    /// Closes the batches that can close.
    fn close_ready(&mut self)
        ensures
            final(self).content() == ready_next::<K>(old(self).content()),
    {
        let ghost goal = ready_next::<K>(old(self).content());
        while self.batches.len() >= 2
            invariant
                ready_next::<K>(self.content()) == goal,
            ensures
                self.content() == goal,
            decreases self.content().batches.len(),
        {
            let end: u128 = self.batches[0].end as u128;
            let d: u128 = self.cfg.boundary_slack_ms as u128;
            let mark = self.line_mark();
            if mark as u128 > end + 2 * d {
                self.stats.closed_by_trades = add_u64(self.stats.closed_by_trades, 1);
            } else if self.depth_wm as u128 >= end + d + self.cfg.watermark_ms as u128 {
                self.stats.closed_by_timeout = add_u64(self.stats.closed_by_timeout, 1);
            } else {
                break;
            }
            proof {
                lemma_close::<K>(self.content());
            }
            self.close_front();
        }
    }

    /// The quantity of a level at the end of the batch that is being closed.
    fn resolve(&self, key: (Side, Px)) -> (r: Qty)
        ensures
            r == quantity_before(
                self.content().batches,
                0,
                self.content().bids,
                self.content().asks,
                key,
            ),
    {
        let n = self.batches.len();
        let mut i: usize = 0;
        while i < n
            invariant
                i <= n == self.batches@.len(),
                quantity_before(views(self.batches@), 0, self.bids@, self.asks@, key)
                    == quantity_before(
                    views(self.batches@),
                    i as int,
                    self.bids@,
                    self.asks@,
                    key,
                ),
            decreases n - i,
        {
            match self.batches[i].changes.get(&key) {
                Some(qq) => {
                    return qq.0;
                },
                None => {},
            }
            i += 1;
        }
        match key.0 {
            Side::Bid => mirror_qty(&self.bids, key.1),
            Side::Ask => mirror_qty(&self.asks, key.1),
        }
    }

    /// The flow of one level.
    fn flow(&self, b: &Batch, key: (Side, Px), qq: Option<(Qty, Qty)>, a: Acc) -> (f: LevelFlow)
        ensures
            f == flow_of(self.content(), b@, (key, (qq, a))),
    {
        let (q0, q1) = match qq {
            Some(e) => e,
            None => {
                let q = self.resolve(key);
                (q, q)
            },
        };
        let clean = b.contaminated.is_none();
        LevelFlow {
            epoch: self.epoch,
            side: key.0,
            px: key.1,
            start_ts_ms: b.start,
            end_ts_ms: b.end,
            q0,
            q1,
            executed: a.executed,
            exec_lo: a.lo,
            exec_hi: a.hi,
            exec_rpi: a.rpi,
            n_fills: a.fills,
            n_trades: a.trades,
            no_visible_min: if clean {
                pos(a.lo, q0)
            } else {
                Qty(0)
            },
            cancelado_min: if clean {
                pos(q0, Qty(add_i64(a.hi.0, q1.0)))
            } else {
                Qty(0)
            },
            agregado_min: if clean {
                pos(q1, q0)
            } else {
                Qty(0)
            },
            clean,
        }
    }

    /// Closes the oldest batch.
    fn close_front(&mut self)
        ensures
            final(self).content() == close_next::<K>(old(self).content()),
    {
        let ghost s0 = old(self).content();
        let b = match self.batches.pop_front() {
            Some(b) => b,
            None => {
                assert(self.content() =~= s0);
                return;
            },
        };
        let ghost s = AlignState { batches: s0.batches.skip(1), ..s0 };
        assert(self.content() =~= s);
        assert(b@ == s0.batches[0]);
        let d = self.cfg.boundary_slack_ms;
        let clean = b.contaminated.is_none();
        let ghost flows = flows_of(s, b@);
        let t = tally(&mut self.trades, &b, d);
        let keys = union_keys(&b.changes, &t.acc);
        let n = keys.len();
        self.uncounted = sub_u64(self.uncounted, t.counted);
        self.stats.ambiguous = add_u64(self.stats.ambiguous, t.ambiguous);
        if clean {
            self.stats.aligned = add_u64(self.stats.aligned, t.counted);
            self.stats.batches_clean = add_u64(self.stats.batches_clean, 1);
        } else {
            self.stats.contaminated = add_u64(self.stats.contaminated, t.counted);
            self.stats.batches_contaminated = add_u64(self.stats.batches_contaminated, 1);
        }
        let ghost before = self.content();
        let mut i: usize = 0;
        assert(flows.take(0) =~= Seq::empty());
        while i < n
            invariant
                i <= n == keys@.len(),
                keys@ == all_keys(b@.changes, sums(s.trades, b@, s.cfg.boundary_slack_ms)),
                flows == flows_of(s, b@),
                before.batches == s.batches,
                before.bids == s.bids,
                before.asks == s.asks,
                before.epoch == s.epoch,
                self.content() == (AlignState {
                    sink: fed_flows::<K>(before.sink, flows.take(i as int)),
                    stats: AlignerStats {
                        flows_emitted: clamp_u64(before.stats.flows_emitted + i) as u64,
                        ..before.stats
                    },
                    ..before
                }),
            decreases n - i,
        {
            let key = *keys.key_at(i);
            let e = *keys.value_at(i);
            let f = self.flow(&b, key, e.0, e.1);
            proof {
                assert(f == flows[i as int]);
                assert(flows.take(i + 1).drop_last() =~= flows.take(i as int));
            }
            self.stats.flows_emitted = add_u64(self.stats.flows_emitted, 1);
            self.sink.on_level_flow(&f);
            i += 1;
        }
        assert(flows.take(n as int) =~= flows);
        let changed = b.changes.len();
        let info = BatchInfo {
            epoch: self.epoch,
            start_ts_ms: b.start,
            end_ts_ms: b.end,
            levels_changed: if changed as u64 > u32::MAX as u64 {
                u32::MAX
            } else {
                changed as u32
            },
            trades: t.counted,
            contaminated: b.contaminated,
        };
        self.sink.on_batch(&info);
        self.finalized_until = b.end;
        assert(self.content() =~= unpruned::<K>(s0));
        self.prune();
    }

    /// Drops the trades that no open batch can use.
    fn prune(&mut self)
        ensures
            final(self).content() == pruned(old(self).content()),
    {
        let ghost goal = pruned(old(self).content());
        while self.trades.len() > 0
            invariant
                pruned(self.content()) == goal,
            ensures
                self.content() == goal,
            decreases self.content().trades.len(),
        {
            let ts: u64 = self.trades.key_at(0).0;
            if ts as u128 + self.cfg.boundary_slack_ms as u128 > self.finalized_until as u128 {
                break;
            }
            match self.trades.pop_first() {
                Some(e) => {
                    if !e.1.counted {
                        self.uncounted = sub_u64(self.uncounted, 1);
                        self.stats.late = add_u64(self.stats.late, 1);
                    }
                },
                None => {},
            }
        }
    }

    /// The diff joins the last batch or opens a new one.
    fn open_batch(&mut self, diff: &DepthDiff)
        ensures
            final(self).content() == batched(old(self).content(), *diff),
    {
        let ghost s0 = old(self).content();
        let raw = match diff.match_ts_ms {
            Some(t) => t,
            None => diff.exch_ts_ms,
        };
        let ts = if raw < self.last_end {
            self.stats.ts_regressions = add_u64(self.stats.ts_regressions, 1);
            self.last_end
        } else {
            raw
        };
        if self.depth_wm < ts {
            self.depth_wm = ts;
        }
        let mut changes: SortedMap<(Side, Px), (Qty, Qty)> = SortedMap::new();
        core::mem::swap(&mut changes, &mut self.staging);
        let n = self.batches.len();
        if n > 0 && self.batches[n - 1].end == ts {
            let ghost all = self.batches@;
            match self.batches.pop_back() {
                Some(b) => {
                    let mut c = b;
                    let k = changes.len();
                    let mut i: usize = 0;
                    assert(changes@.take(0) =~= Seq::empty());
                    while i < k
                        invariant
                            i <= k == changes@.len(),
                            c@ == (BatchState {
                                changes: merged(b@.changes, changes@.take(i as int)),
                                ..b@
                            }),
                        decreases k - i,
                    {
                        let key = *changes.key_at(i);
                        let e = *changes.value_at(i);
                        assert(changes@.take(i + 1).drop_last() =~= changes@.take(i as int));
                        stage(&mut c.changes, key, e.0, e.1);
                        i += 1;
                    }
                    assert(changes@.take(k as int) =~= changes@);
                    self.batches.push_back(c);
                    assert(views(self.batches@) =~= views(all).update(n - 1, c@));
                },
                None => {},
            }
        } else {
            let ghost all = self.batches@;
            let b = Batch {
                start: self.last_end,
                end: ts,
                contaminated: if self.fresh {
                    Some(Contamination::EpochStart)
                } else {
                    None
                },
                changes,
            };
            self.batches.push_back(b);
            assert(views(self.batches@) =~= views(all).push(b@));
            self.fresh = false;
            self.last_end = ts;
        }
        let open: u64 = self.batches.len() as u64;
        if self.stats.max_open_batches_seen < open {
            self.stats.max_open_batches_seen = open;
        }
        assert(self.content() =~= batched(s0, *diff));
    }

    /// Closes the oldest batches while there are too many.
    fn close_forced(&mut self)
        ensures
            final(self).content() == forced_next::<K>(old(self).content()),
    {
        while self.batches.len() > self.cfg.max_open_batches
            invariant
                forced_next::<K>(self.content()) == forced_next::<K>(old(self).content()),
            decreases self.content().batches.len(),
        {
            self.stats.closed_forced = add_u64(self.stats.closed_forced, 1);
            proof {
                lemma_close::<K>(self.content());
            }
            self.close_front();
        }
    }
}

impl<K: FlowSink> BookObserver for Aligner<K> {
    type State = AlignState<K::State>;

    open spec fn state(&self) -> AlignState<K::State> {
        self.content()
    }

    open spec fn level_next(
        s: AlignState<K::State>,
        side: Side,
        px: Px,
        prev: Qty,
        new: Qty,
        exch_ts_ms: u64,
    ) -> AlignState<K::State> {
        on_level_next(s, side, px, prev, new)
    }

    open spec fn diff_next(s: AlignState<K::State>, d: DepthDiff) -> AlignState<K::State> {
        on_diff_next::<K>(s, d)
    }

    open spec fn rebuild_next(
        s: AlignState<K::State>,
        epoch: u64,
        book: BookState,
    ) -> AlignState<K::State> {
        on_rebuild_next::<K>(s, epoch, book)
    }

    open spec fn invalidate_next(
        s: AlignState<K::State>,
        epoch: u64,
        reason: ResyncReason,
    ) -> AlignState<K::State> {
        on_invalidate_next::<K>(s, epoch, reason)
    }

    fn on_level(&mut self, side: Side, px: Px, prev: Qty, new: Qty, exch_ts_ms: u64) {
        let cur = match side {
            Side::Bid => {
                let q = mirror_qty(&self.bids, px);
                mirror_set(&mut self.bids, px, new);
                q
            },
            Side::Ask => {
                let q = mirror_qty(&self.asks, px);
                mirror_set(&mut self.asks, px, new);
                q
            },
        };
        if cur != prev {
            self.stats.mirror_mismatch = add_u64(self.stats.mirror_mismatch, 1);
        }
        stage(&mut self.staging, (side, px), prev, new);
    }

    fn on_diff_applied(&mut self, d: &DepthDiff) {
        if !self.live {
            self.staging.clear();
            return;
        }
        self.open_batch(d);
        self.close_forced();
        self.close_ready();
    }

    fn on_rebuild(&mut self, epoch: u64, book: &L2Book) {
        self.live = true;
        self.epoch = epoch;
        self.fresh = true;
        self.bids = book.bids().duplicate();
        self.asks = book.asks().duplicate();
        self.staging.clear();
        self.batches.clear();
        self.last_end = 0;
        self.finalized_until = 0;
        self.sink.on_rebuild(epoch, book);
        assert(self.content() =~= on_rebuild_next::<K>(old(self).content(), epoch, book@));
    }

    fn on_invalidate(&mut self, epoch: u64, reason: ResyncReason) {
        let open: u64 = self.batches.len() as u64;
        self.stats.batches_contaminated = add_u64(self.stats.batches_contaminated, open);
        self.stats.invalidated = add_u64(self.stats.invalidated, self.uncounted);
        self.uncounted = 0;
        self.trades.clear();
        self.batches.clear();
        self.staging.clear();
        self.bids.clear();
        self.asks.clear();
        self.live = false;
        self.sink.on_invalidate(epoch, reason);
        assert(self.content() =~= on_invalidate_next::<K>(old(self).content(), epoch, reason));
    }
}

} // verus!

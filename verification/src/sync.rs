//! Synchronisation machine: snapshot and diffs, with arbitration of redundant lines.
//!
//! 1. Never silently wrong: while the phase is `Live`, the book is the state of
//!    the exchange at `last_update_id`.
//! 2. Arbitration of lines: an event lost on one line is recovered from the other
//!    without a resync (the first to come wins; duplicates are discarded by id).
//! 3. Determinism: no clock inside, no I/O; time is injected.

use crate::book::{ladder_qty, BookState, L2Book};
use crate::event::{DepthDiff, DepthSnapshot, Level, Side};
use crate::num::{add_u64, clamp_i64, clamp_u64, to_i64};
use crate::observer::BookObserver;
use crate::ordmap::{holds, put, SortedMap};
use crate::rule::{Class, SeqRule};
use vstd::prelude::*;

verus! {

/// Phase of the book.
#[derive(Debug, Clone, Copy, PartialEq, Eq, Structural)]
pub enum Phase {
    /// No valid state: gathering diffs, waiting for a snapshot that bridges them.
    Syncing,
    /// Valid and chained book.
    Live,
}

/// Why the book resynchronises.
#[derive(Debug, Clone, Copy, PartialEq, Eq, Structural, Hash)]
pub enum ResyncReason {
    /// A missing diff came by no line within the window.
    GapTimeout,
    /// Too many early diffs held.
    PendingOverflow,
    /// Impossible sequence.
    InvalidSequence,
    /// Crossed book after applying a diff.
    Crossed,
    /// Asked from outside.
    Manual,
}

impl ResyncReason {
    /// What [`ResyncReason::as_str`] returns.
    pub open spec fn label(self) -> Seq<char> {
        match self {
            ResyncReason::GapTimeout => "gap_timeout"@,
            ResyncReason::PendingOverflow => "pending_overflow"@,
            ResyncReason::InvalidSequence => "invalid_sequence"@,
            ResyncReason::Crossed => "crossed"@,
            ResyncReason::Manual => "manual"@,
        }
    }

    /// Stable label.
    pub fn as_str(self) -> (r: &'static str)
        ensures
            r@ == self.label(),
    {
        match self {
            ResyncReason::GapTimeout => "gap_timeout",
            ResyncReason::PendingOverflow => "pending_overflow",
            ResyncReason::InvalidSequence => "invalid_sequence",
            ResyncReason::Crossed => "crossed",
            ResyncReason::Manual => "manual",
        }
    }
}

/// What to do with a crossed book.
#[derive(Debug, Clone, Copy, PartialEq, Eq, Structural)]
pub enum CrossPolicy {
    /// Resynchronise (a crossed book in one venue is a corrupt book).
    Resync,
    /// Only count.
    Tolerate,
}

/// Configuration.
#[derive(Debug, Clone, Copy, PartialEq, Eq, Structural)]
pub struct SyncConfig {
    /// Longest wait for a missing diff before declaring a gap (ms).
    pub gap_timeout_ms: u64,
    /// Most early diffs held.
    pub max_pending: usize,
    /// Most diffs in the buffer while synchronising.
    pub max_buffer: usize,
    /// A requested snapshot that does not come in this time is asked for again (ms).
    pub snapshot_retry_ms: u64,
    /// What to do with a crossed book.
    pub cross_policy: CrossPolicy,
}

/// The limits of [`SyncConfig::default`].
pub open spec fn usual_limits() -> SyncConfig {
    SyncConfig {
        gap_timeout_ms: 750,
        max_pending: 256,
        max_buffer: 20_000,
        snapshot_retry_ms: 10_000,
        cross_policy: CrossPolicy::Resync,
    }
}

impl Default for SyncConfig {
    /// The usual limits.
    fn default() -> (r: Self)
        ensures
            r == usual_limits(),
    {
        SyncConfig {
            gap_timeout_ms: 750,
            max_pending: 256,
            max_buffer: 20_000,
            snapshot_retry_ms: 10_000,
            cross_policy: CrossPolicy::Resync,
        }
    }
}

/// Most redundant lines with statistics of their own.
pub const MAX_LINES: usize = 4;

/// Counters of the machine. They only grow, and stop at `u64::MAX`.
#[derive(Debug, Clone)]
pub struct SyncStats {
    /// Diffs received (all lines).
    pub diffs_rx: u64,
    /// Diffs applied.
    pub applied: u64,
    /// Diffs discarded as already contained.
    pub stale: u64,
    /// Early diffs held.
    pub ahead: u64,
    /// Early diffs applied later.
    pub reordered_applied: u64,
    /// Snapshots requested.
    pub snapshots_requested: u64,
    /// Snapshots received.
    pub snapshots_rx: u64,
    /// Snapshots discarded because they cannot bridge the buffer.
    pub snapshots_unbridgeable: u64,
    /// Snapshots ignored because the book was already live.
    pub snapshots_ignored: u64,
    /// Resyncs by gap.
    pub resync_gap_timeout: u64,
    /// Resyncs by overflow of the held diffs.
    pub resync_pending_overflow: u64,
    /// Resyncs by invalid sequence.
    pub resync_invalid_sequence: u64,
    /// Resyncs by crossed book.
    pub resync_crossed: u64,
    /// Manual resyncs.
    pub resync_manual: u64,
    /// Times that a crossed book was seen.
    pub crossed_seen: u64,
    /// Diffs discarded by overflow of the synchronisation buffer.
    pub buffer_dropped: u64,
    /// Diffs before the snapshot discarded when bridging.
    pub pre_snapshot: u64,
    /// Diffs with an impossible sequence discarded.
    pub invalid_dropped: u64,
    /// Most held diffs seen.
    pub max_pending_seen: u64,
    /// Diffs applied per line (which one came first).
    pub applied_by_line: [u64; MAX_LINES],
    /// Duplicates per line.
    pub stale_by_line: [u64; MAX_LINES],
}

/// What [`SyncStats`] holds.
#[verifier::ext_equal]
pub struct StatsView {
    /// Diffs received (all lines).
    pub diffs_rx: u64,
    /// Diffs applied.
    pub applied: u64,
    /// Diffs discarded as already contained.
    pub stale: u64,
    /// Early diffs held.
    pub ahead: u64,
    /// Early diffs applied later.
    pub reordered_applied: u64,
    /// Snapshots requested.
    pub snapshots_requested: u64,
    /// Snapshots received.
    pub snapshots_rx: u64,
    /// Snapshots discarded because they cannot bridge the buffer.
    pub snapshots_unbridgeable: u64,
    /// Snapshots ignored because the book was already live.
    pub snapshots_ignored: u64,
    /// Resyncs by gap.
    pub resync_gap_timeout: u64,
    /// Resyncs by overflow of the held diffs.
    pub resync_pending_overflow: u64,
    /// Resyncs by invalid sequence.
    pub resync_invalid_sequence: u64,
    /// Resyncs by crossed book.
    pub resync_crossed: u64,
    /// Manual resyncs.
    pub resync_manual: u64,
    /// Times that a crossed book was seen.
    pub crossed_seen: u64,
    /// Diffs discarded by overflow of the synchronisation buffer.
    pub buffer_dropped: u64,
    /// Diffs before the snapshot discarded when bridging.
    pub pre_snapshot: u64,
    /// Diffs with an impossible sequence discarded.
    pub invalid_dropped: u64,
    /// Most held diffs seen.
    pub max_pending_seen: u64,
    /// Diffs applied per line.
    pub applied_by_line: Seq<u64>,
    /// Duplicates per line.
    pub stale_by_line: Seq<u64>,
}

impl View for SyncStats {
    type V = StatsView;

    open spec fn view(&self) -> StatsView {
        StatsView {
            diffs_rx: self.diffs_rx,
            applied: self.applied,
            stale: self.stale,
            ahead: self.ahead,
            reordered_applied: self.reordered_applied,
            snapshots_requested: self.snapshots_requested,
            snapshots_rx: self.snapshots_rx,
            snapshots_unbridgeable: self.snapshots_unbridgeable,
            snapshots_ignored: self.snapshots_ignored,
            resync_gap_timeout: self.resync_gap_timeout,
            resync_pending_overflow: self.resync_pending_overflow,
            resync_invalid_sequence: self.resync_invalid_sequence,
            resync_crossed: self.resync_crossed,
            resync_manual: self.resync_manual,
            crossed_seen: self.crossed_seen,
            buffer_dropped: self.buffer_dropped,
            pre_snapshot: self.pre_snapshot,
            invalid_dropped: self.invalid_dropped,
            max_pending_seen: self.max_pending_seen,
            applied_by_line: self.applied_by_line@,
            stale_by_line: self.stale_by_line@,
        }
    }
}

impl StatsView {
    /// Every counter at zero.
    pub open spec fn zero() -> StatsView {
        StatsView {
            diffs_rx: 0,
            applied: 0,
            stale: 0,
            ahead: 0,
            reordered_applied: 0,
            snapshots_requested: 0,
            snapshots_rx: 0,
            snapshots_unbridgeable: 0,
            snapshots_ignored: 0,
            resync_gap_timeout: 0,
            resync_pending_overflow: 0,
            resync_invalid_sequence: 0,
            resync_crossed: 0,
            resync_manual: 0,
            crossed_seen: 0,
            buffer_dropped: 0,
            pre_snapshot: 0,
            invalid_dropped: 0,
            max_pending_seen: 0,
            applied_by_line: seq![0, 0, 0, 0],
            stale_by_line: seq![0, 0, 0, 0],
        }
    }

    /// All the resyncs.
    pub open spec fn resyncs(self) -> int {
        self.resync_gap_timeout + self.resync_pending_overflow + self.resync_invalid_sequence
            + self.resync_crossed + self.resync_manual
    }

    /// The diffs that reached a final account.
    pub open spec fn settled(self) -> int {
        self.applied + self.stale + self.pre_snapshot + self.buffer_dropped + self.invalid_dropped
    }
}

/// A counter one higher.
pub open spec fn inc(n: u64) -> u64 {
    clamp_u64(n + 1) as u64
}

/// The counter of one line one higher, where that line has one.
pub open spec fn bump(s: Seq<u64>, line: u8) -> Seq<u64> {
    if line < s.len() {
        s.update(line as int, inc(s[line as int]))
    } else {
        s
    }
}

impl SyncStats {
    /// Every counter at zero.
    pub fn zero() -> (r: Self)
        ensures
            r@ == StatsView::zero(),
    {
        let r = SyncStats {
            diffs_rx: 0,
            applied: 0,
            stale: 0,
            ahead: 0,
            reordered_applied: 0,
            snapshots_requested: 0,
            snapshots_rx: 0,
            snapshots_unbridgeable: 0,
            snapshots_ignored: 0,
            resync_gap_timeout: 0,
            resync_pending_overflow: 0,
            resync_invalid_sequence: 0,
            resync_crossed: 0,
            resync_manual: 0,
            crossed_seen: 0,
            buffer_dropped: 0,
            pre_snapshot: 0,
            invalid_dropped: 0,
            max_pending_seen: 0,
            applied_by_line: [0, 0, 0, 0],
            stale_by_line: [0, 0, 0, 0],
        };
        assert(r@ =~= StatsView::zero());
        r
    }

    /// All the resyncs.
    pub fn resyncs(&self) -> (r: u64)
        ensures
            r == clamp_u64(self@.resyncs()),
    {
        self.resync_gap_timeout.saturating_add(self.resync_pending_overflow).saturating_add(
            self.resync_invalid_sequence,
        ).saturating_add(self.resync_crossed).saturating_add(self.resync_manual)
    }

    /// A copy.
    pub fn copy(&self) -> (r: Self)
        ensures
            r@ == self@,
    {
        SyncStats {
            diffs_rx: self.diffs_rx,
            applied: self.applied,
            stale: self.stale,
            ahead: self.ahead,
            reordered_applied: self.reordered_applied,
            snapshots_requested: self.snapshots_requested,
            snapshots_rx: self.snapshots_rx,
            snapshots_unbridgeable: self.snapshots_unbridgeable,
            snapshots_ignored: self.snapshots_ignored,
            resync_gap_timeout: self.resync_gap_timeout,
            resync_pending_overflow: self.resync_pending_overflow,
            resync_invalid_sequence: self.resync_invalid_sequence,
            resync_crossed: self.resync_crossed,
            resync_manual: self.resync_manual,
            crossed_seen: self.crossed_seen,
            buffer_dropped: self.buffer_dropped,
            pre_snapshot: self.pre_snapshot,
            invalid_dropped: self.invalid_dropped,
            max_pending_seen: self.max_pending_seen,
            applied_by_line: self.applied_by_line,
            stale_by_line: self.stale_by_line,
        }
    }
}

/// Counts one in the counter of a line.
pub fn bump_line(counts: &mut [u64; MAX_LINES], line: u8)
    ensures
        final(counts)@ == bump(old(counts)@, line),
{
    let i: usize = line as usize;
    if i < MAX_LINES {
        let n: u64 = counts[i];
        counts[i] = add_u64(n, 1);
    }
}

/// Result of a step (actions for the driver of I/O).
#[derive(Debug, Clone, Copy, PartialEq, Eq, Structural)]
pub struct Step {
    /// Diffs applied in this step.
    pub applied: u32,
    /// The driver must ask for a snapshot.
    pub need_snapshot: bool,
    /// The book went live in this step.
    pub went_live: bool,
    /// There was a resync in this step.
    pub resync: Option<ResyncReason>,
}

impl Step {
    /// Nothing to do.
    pub open spec fn none() -> Step {
        Step { applied: 0, need_snapshot: false, went_live: false, resync: None }
    }
}

impl Default for Step {
    /// Nothing to do.
    fn default() -> (r: Self)
        ensures
            r == Step::none(),
    {
        Step { applied: 0, need_snapshot: false, went_live: false, resync: None }
    }
}

/// The update ids of a diff.
pub type Key = (u64, u64);

/// What a [`SyncBook`] holds, over the states `S` of its observer.
#[verifier::ext_equal]
pub struct SyncState<R, S> {
    /// The rule.
    pub rule: R,
    /// The configuration.
    pub cfg: SyncConfig,
    /// The state of the observer.
    pub obs: S,
    /// The phase.
    pub phase: Phase,
    /// The book.
    pub book: BookState,
    /// The last update id applied.
    pub last: u64,
    /// How many times the book was rebuilt.
    pub epoch: u64,
    /// Diffs gathered while synchronising, by id.
    pub buffer: Seq<((u64, u64), DepthDiff)>,
    /// Early diffs held while live, by id, each with the time it came.
    pub pending: Seq<((u64, u64), (DepthDiff, u64))>,
    /// A snapshot that waits for diffs.
    pub held: Option<DepthSnapshot>,
    /// When a snapshot was asked for.
    pub snapshot_req_at: Option<u64>,
    /// Exchange time of the last diff applied.
    pub last_exch_ts_ms: u64,
    /// The counters.
    pub stats: StatsView,
}

/// A state together with the actions gathered so far in a step.
#[verifier::ext_equal]
pub struct Progress<R, S> {
    /// The state.
    pub s: SyncState<R, S>,
    /// The actions.
    pub st: Step,
}

/// The state of a new machine.
pub open spec fn start<R, S>(rule: R, cfg: SyncConfig, obs: S) -> SyncState<R, S> {
    SyncState {
        rule,
        cfg,
        obs,
        phase: Phase::Syncing,
        book: BookState::empty(),
        last: 0,
        epoch: 0,
        buffer: Seq::empty(),
        pending: Seq::empty(),
        held: None,
        snapshot_req_at: None,
        last_exch_ts_ms: 0,
        stats: StatsView::zero(),
    }
}

/// A duplicate of a line is counted.
pub open spec fn stale_next<R, S>(s: SyncState<R, S>, line: u8) -> SyncState<R, S> {
    SyncState {
        stats: StatsView {
            stale: inc(s.stats.stale),
            stale_by_line: bump(s.stats.stale_by_line, line),
            ..s.stats
        },
        ..s
    }
}

/// A snapshot is asked for.
pub open spec fn request_next<R, S>(p: Progress<R, S>, now_ms: u64) -> Progress<R, S> {
    Progress {
        s: SyncState {
            snapshot_req_at: Some(now_ms),
            stats: StatsView {
                snapshots_requested: inc(p.s.stats.snapshots_requested),
                ..p.s.stats
            },
            ..p.s
        },
        st: Step { need_snapshot: true, ..p.st },
    }
}

/// The buffer after the held diffs join it.
pub open spec fn absorbed(
    buffer: Seq<((u64, u64), DepthDiff)>,
    pending: Seq<((u64, u64), (DepthDiff, u64))>,
) -> Seq<((u64, u64), DepthDiff)>
    decreases pending.len(),
{
    if pending.len() == 0 {
        buffer
    } else {
        put(absorbed(buffer, pending.drop_last()), pending.last().0, pending.last().1.0)
    }
}

/// The counters after a resync for `reason`.
pub open spec fn resync_counted(c: StatsView, reason: ResyncReason) -> StatsView {
    match reason {
        ResyncReason::GapTimeout => StatsView {
            resync_gap_timeout: inc(c.resync_gap_timeout),
            ..c
        },
        ResyncReason::PendingOverflow => StatsView {
            resync_pending_overflow: inc(c.resync_pending_overflow),
            ..c
        },
        ResyncReason::InvalidSequence => StatsView {
            resync_invalid_sequence: inc(c.resync_invalid_sequence),
            ..c
        },
        ResyncReason::Crossed => StatsView { resync_crossed: inc(c.resync_crossed), ..c },
        ResyncReason::Manual => StatsView { resync_manual: inc(c.resync_manual), ..c },
    }
}

/// Synchronisation is lost: the book is emptied, the held diffs go back to the
/// buffer (they are after the gap and may bridge the next snapshot), and a
/// snapshot is asked for.
pub open spec fn resync_next<R, O: BookObserver>(
    p: Progress<R, O::State>,
    reason: ResyncReason,
    now_ms: u64,
) -> Progress<R, O::State> {
    request_next(
        Progress {
            s: SyncState {
                stats: resync_counted(p.s.stats, reason),
                obs: O::invalidate_next(p.s.obs, p.s.epoch, reason),
                phase: Phase::Syncing,
                book: BookState::empty(),
                last: 0,
                held: None,
                buffer: absorbed(p.s.buffer, p.s.pending),
                pending: Seq::empty(),
                ..p.s
            },
            st: Step { resync: Some(reason), ..p.st },
        },
        now_ms,
    )
}

/// The book and the observer after the levels of one side of a diff, in order.
pub open spec fn levels_next<O: BookObserver>(
    book: BookState,
    obs: O::State,
    side: Side,
    levels: Seq<Level>,
    ts: u64,
) -> (BookState, O::State)
    decreases levels.len(),
{
    if levels.len() == 0 {
        (book, obs)
    } else {
        let (b, o) = levels_next::<O>(book, obs, side, levels.drop_last(), ts);
        let l = levels.last();
        (
            b.with_level(side, l.px, l.qty),
            O::level_next(o, side, l.px, ladder_qty(b.side(side), l.px), l.qty, ts),
        )
    }
}

/// The state with a diff applied, before the book is looked at.
pub open spec fn absorb_diff<R, O: BookObserver>(
    p: Progress<R, O::State>,
    d: DepthDiff,
) -> Progress<R, O::State> {
    let (b1, o1) = levels_next::<O>(p.s.book, p.s.obs, Side::Bid, d.bids@, d.exch_ts_ms);
    let (b2, o2) = levels_next::<O>(b1, o1, Side::Ask, d.asks@, d.exch_ts_ms);
    Progress {
        s: SyncState {
            book: b2,
            obs: O::diff_next(o2, d),
            last: d.last_id,
            last_exch_ts_ms: d.exch_ts_ms,
            stats: StatsView {
                applied: inc(p.s.stats.applied),
                applied_by_line: bump(p.s.stats.applied_by_line, d.rx.line),
                ..p.s.stats
            },
            ..p.s
        },
        st: Step {
            applied: crate::num::clamp(0, p.st.applied + 1, u32::MAX as int) as u32,
            ..p.st
        },
    }
}

/// A crossed book resynchronises.
pub open spec fn cross_resyncs<R, S>(s: SyncState<R, S>) -> bool {
    s.book.crossed() && s.cfg.cross_policy == CrossPolicy::Resync
}

/// A diff is applied. Whether it left the book synchronised is
/// `!cross_resyncs(absorb_diff(p, d).s)`.
pub open spec fn apply_next<R, O: BookObserver>(
    p: Progress<R, O::State>,
    d: DepthDiff,
    now_ms: u64,
) -> Progress<R, O::State> {
    let q = absorb_diff::<R, O>(p, d);
    if q.s.book.crossed() {
        let c = Progress {
            s: SyncState {
                stats: StatsView { crossed_seen: inc(q.s.stats.crossed_seen), ..q.s.stats },
                ..q.s
            },
            ..q
        };
        if q.s.cfg.cross_policy == CrossPolicy::Resync {
            resync_next::<R, O>(c, ResyncReason::Crossed, now_ms)
        } else {
            c
        }
    } else {
        q
    }
}

/// The held diffs that now chain are applied, in order of id.
pub open spec fn drain_next<R: SeqRule, O: BookObserver>(
    p: Progress<R, O::State>,
    now_ms: u64,
) -> Progress<R, O::State>
    decreases p.s.pending.len(),
{
    if p.s.pending.len() == 0 {
        p
    } else {
        let (key, (d, t)) = p.s.pending[0];
        let rest = SyncState { pending: p.s.pending.skip(1), ..p.s };
        match p.s.rule.chains(key.0, key.1, d.prev_last_id, p.s.last) {
            Class::Stale => drain_next::<R, O>(
                Progress { s: stale_next(rest, d.rx.line), ..p },
                now_ms,
            ),
            Class::Next => {
                let q = Progress {
                    s: SyncState {
                        stats: StatsView {
                            reordered_applied: inc(rest.stats.reordered_applied),
                            ..rest.stats
                        },
                        ..rest
                    },
                    ..p
                };
                let a = apply_next::<R, O>(q, d, now_ms);
                if cross_resyncs(absorb_diff::<R, O>(q, d).s) {
                    a
                } else {
                    drain_next::<R, O>(a, now_ms)
                }
            },
            Class::Ahead => p,
            Class::Invalid => resync_next::<R, O>(p, ResyncReason::InvalidSequence, now_ms),
        }
    }
}

/// A diff comes while live.
pub open spec fn live_next<R: SeqRule, O: BookObserver>(
    p: Progress<R, O::State>,
    d: DepthDiff,
    now_ms: u64,
) -> Progress<R, O::State> {
    let key = (d.first_id, d.last_id);
    match p.s.rule.chains(d.first_id, d.last_id, d.prev_last_id, p.s.last) {
        Class::Stale => Progress { s: stale_next(p.s, d.rx.line), ..p },
        Class::Next => {
            let a = apply_next::<R, O>(p, d, now_ms);
            if cross_resyncs(absorb_diff::<R, O>(p, d).s) {
                a
            } else {
                drain_next::<R, O>(a, now_ms)
            }
        },
        Class::Ahead => if holds(p.s.pending, key) {
            Progress { s: stale_next(p.s, d.rx.line), ..p }
        } else {
            let pending = put(p.s.pending, key, (d, now_ms));
            let q = Progress {
                s: SyncState {
                    pending,
                    stats: StatsView {
                        ahead: inc(p.s.stats.ahead),
                        max_pending_seen: if p.s.stats.max_pending_seen < pending.len() {
                            clamp_u64(pending.len() as int) as u64
                        } else {
                            p.s.stats.max_pending_seen
                        },
                        ..p.s.stats
                    },
                    ..p.s
                },
                ..p
            };
            if pending.len() > p.s.cfg.max_pending {
                resync_next::<R, O>(q, ResyncReason::PendingOverflow, now_ms)
            } else {
                q
            }
        },
        Class::Invalid => resync_next::<R, O>(
            Progress {
                s: SyncState {
                    stats: StatsView {
                        invalid_dropped: inc(p.s.stats.invalid_dropped),
                        ..p.s.stats
                    },
                    ..p.s
                },
                ..p
            },
            ResyncReason::InvalidSequence,
            now_ms,
        ),
    }
}

/// The diffs gathered go through the live chain while the book stays live, and
/// back to the buffer otherwise.
pub open spec fn feed_next<R: SeqRule, O: BookObserver>(
    p: Progress<R, O::State>,
    rest: Seq<((u64, u64), DepthDiff)>,
    now_ms: u64,
) -> Progress<R, O::State>
    decreases rest.len(),
{
    if rest.len() == 0 {
        p
    } else {
        let (key, d) = rest[0];
        let q = if p.s.phase == Phase::Live {
            live_next::<R, O>(p, d, now_ms)
        } else {
            Progress { s: SyncState { buffer: put(p.s.buffer, key, d), ..p.s }, ..p }
        };
        feed_next::<R, O>(q, rest.skip(1), now_ms)
    }
}

/// The held snapshot is discarded and another is asked for.
pub open spec fn unbridgeable_next<R, S>(p: Progress<R, S>, now_ms: u64) -> Progress<R, S> {
    request_next(
        Progress {
            s: SyncState {
                held: None,
                stats: StatsView {
                    snapshots_unbridgeable: inc(p.s.stats.snapshots_unbridgeable),
                    ..p.s.stats
                },
                ..p.s
            },
            ..p
        },
        now_ms,
    )
}

/// The state just rebuilt from the held snapshot, without the bridging diff.
pub open spec fn rebuilt<R, O: BookObserver>(p: Progress<R, O::State>) -> Progress<R, O::State> {
    let snap = p.s.held->0;
    let epoch = inc(p.s.epoch);
    let book = BookState::of_snapshot(snap);
    Progress {
        s: SyncState {
            held: None,
            book,
            last: snap.last_update_id,
            epoch,
            phase: Phase::Live,
            pending: Seq::empty(),
            obs: O::rebuild_next(p.s.obs, epoch, book),
            buffer: p.s.buffer.skip(1),
            ..p.s
        },
        st: Step { went_live: true, ..p.st },
    }
}

/// The held snapshot becomes the book, and the first diff of the buffer bridges it.
pub open spec fn install_next<R: SeqRule, O: BookObserver>(
    p: Progress<R, O::State>,
    now_ms: u64,
) -> Progress<R, O::State> {
    let first = p.s.buffer[0].1;
    let q = rebuilt::<R, O>(p);
    let a = apply_next::<R, O>(q, first, now_ms);
    if cross_resyncs(absorb_diff::<R, O>(q, first).s) {
        a
    } else {
        feed_next::<R, O>(
            Progress { s: SyncState { buffer: Seq::empty(), ..a.s }, ..a },
            a.s.buffer,
            now_ms,
        )
    }
}

/// The first diff that bridges the held snapshot is looked for; the ones before
/// the snapshot are discarded.
pub open spec fn seek_next<R: SeqRule, O: BookObserver>(
    p: Progress<R, O::State>,
    now_ms: u64,
) -> Progress<R, O::State>
    decreases p.s.buffer.len(),
{
    if p.s.buffer.len() == 0 {
        p
    } else {
        let (key, d) = p.s.buffer[0];
        let snap_id = (p.s.held->0).last_update_id;
        match p.s.rule.bridges(key.0, key.1, d.prev_last_id, snap_id) {
            Class::Stale => seek_next::<R, O>(
                Progress {
                    s: SyncState {
                        buffer: p.s.buffer.skip(1),
                        stats: StatsView {
                            pre_snapshot: inc(p.s.stats.pre_snapshot),
                            ..p.s.stats
                        },
                        ..p.s
                    },
                    ..p
                },
                now_ms,
            ),
            Class::Next => install_next::<R, O>(p, now_ms),
            Class::Ahead => unbridgeable_next(p, now_ms),
            Class::Invalid => unbridgeable_next(p, now_ms),
        }
    }
}

/// The held snapshot, if any, is tried against the diffs gathered.
pub open spec fn try_install_next<R: SeqRule, O: BookObserver>(
    p: Progress<R, O::State>,
    now_ms: u64,
) -> Progress<R, O::State> {
    match p.s.held {
        None => p,
        Some(snap) => if p.s.buffer.len() == 0 {
            p
        } else if p.s.rule.too_old(p.s.buffer[0].0.0, snap.last_update_id) {
            unbridgeable_next(p, now_ms)
        } else {
            seek_next::<R, O>(p, now_ms)
        },
    }
}

/// The buffer is cut to its limit, oldest ids first.
pub open spec fn trimmed<R, S>(s: SyncState<R, S>) -> SyncState<R, S>
    decreases s.buffer.len(),
{
    if s.buffer.len() > s.cfg.max_buffer {
        trimmed(
            SyncState {
                buffer: s.buffer.skip(1),
                stats: StatsView { buffer_dropped: inc(s.stats.buffer_dropped), ..s.stats },
                ..s
            },
        )
    } else {
        s
    }
}

/// A diff comes while synchronising, before the held snapshot is tried.
pub open spec fn gathered<R, S>(s: SyncState<R, S>, d: DepthDiff) -> SyncState<R, S> {
    let key = (d.first_id, d.last_id);
    if holds(s.buffer, key) {
        stale_next(s, d.rx.line)
    } else {
        trimmed(SyncState { buffer: put(s.buffer, key, d), ..s })
    }
}

/// What [`SyncBook::on_diff`] does.
pub open spec fn on_diff_next<R: SeqRule, O: BookObserver>(
    s0: SyncState<R, O::State>,
    d: DepthDiff,
    now_ms: u64,
) -> Progress<R, O::State> {
    let s = SyncState {
        stats: StatsView { diffs_rx: inc(s0.stats.diffs_rx), ..s0.stats },
        ..s0
    };
    match s.phase {
        Phase::Live => live_next::<R, O>(Progress { s, st: Step::none() }, d, now_ms),
        Phase::Syncing => {
            let p = Progress { s: gathered(s, d), st: Step::none() };
            if p.s.held is Some {
                try_install_next::<R, O>(p, now_ms)
            } else if p.s.snapshot_req_at is None {
                request_next(p, now_ms)
            } else {
                p
            }
        },
    }
}

/// What [`SyncBook::on_snapshot`] does.
pub open spec fn on_snapshot_next<R: SeqRule, O: BookObserver>(
    s0: SyncState<R, O::State>,
    snap: DepthSnapshot,
    now_ms: u64,
) -> Progress<R, O::State> {
    let s = SyncState {
        snapshot_req_at: None,
        stats: StatsView { snapshots_rx: inc(s0.stats.snapshots_rx), ..s0.stats },
        ..s0
    };
    if s.phase == Phase::Live {
        Progress {
            s: SyncState {
                stats: StatsView {
                    snapshots_ignored: inc(s.stats.snapshots_ignored),
                    ..s.stats
                },
                ..s
            },
            st: Step::none(),
        }
    } else {
        try_install_next::<R, O>(
            Progress { s: SyncState { held: Some(snap), ..s }, st: Step::none() },
            now_ms,
        )
    }
}

/// The earliest time among the held diffs.
pub open spec fn oldest(pending: Seq<((u64, u64), (DepthDiff, u64))>) -> Option<u64>
    decreases pending.len(),
{
    if pending.len() == 0 {
        None
    } else {
        let t = pending.last().1.1;
        match oldest(pending.drop_last()) {
            Some(o) if o <= t => Some(o),
            _ => Some(t),
        }
    }
}

/// What [`SyncBook::on_tick`] does.
pub open spec fn on_tick_next<R: SeqRule, O: BookObserver>(
    s: SyncState<R, O::State>,
    now_ms: u64,
) -> Progress<R, O::State> {
    let p = Progress { s, st: Step::none() };
    match s.phase {
        Phase::Live => match oldest(s.pending) {
            Some(t) if clamp_u64(now_ms - t) >= s.cfg.gap_timeout_ms => resync_next::<R, O>(
                p,
                ResyncReason::GapTimeout,
                now_ms,
            ),
            _ => p,
        },
        Phase::Syncing => match s.snapshot_req_at {
            Some(t) if clamp_u64(now_ms - t) >= s.cfg.snapshot_retry_ms => request_next(p, now_ms),
            _ => p,
        },
    }
}

/// What [`SyncBook::force_resync`] does.
pub open spec fn force_resync_next<R: SeqRule, O: BookObserver>(
    s: SyncState<R, O::State>,
    now_ms: u64,
) -> Progress<R, O::State> {
    resync_next::<R, O>(Progress { s, st: Step::none() }, ResyncReason::Manual, now_ms)
}

/// Synchronised book, generic over the sequence rule `R` and the observer `O`.
pub struct SyncBook<R: SeqRule, O: BookObserver = ()> {
    rule: R,
    cfg: SyncConfig,
    obs: O,
    phase: Phase,
    book: L2Book,
    last: u64,
    epoch: u64,
    buffer: SortedMap<(u64, u64), DepthDiff>,
    pending: SortedMap<(u64, u64), (DepthDiff, u64)>,
    held: Option<DepthSnapshot>,
    snapshot_req_at: Option<u64>,
    last_exch_ts_ms: u64,
    stats: SyncStats,
}

impl<R: SeqRule, O: BookObserver> SyncBook<R, O> {
    /// What the machine holds.
    pub closed spec fn state(&self) -> SyncState<R, O::State> {
        SyncState {
            rule: self.rule,
            cfg: self.cfg,
            obs: self.obs.state(),
            phase: self.phase,
            book: self.book@,
            last: self.last,
            epoch: self.epoch,
            buffer: self.buffer@,
            pending: self.pending@,
            held: self.held,
            snapshot_req_at: self.snapshot_req_at,
            last_exch_ts_ms: self.last_exch_ts_ms,
            stats: self.stats@,
        }
    }

    /// A new book, in phase `Syncing`.
    pub fn new(rule: R, cfg: SyncConfig, obs: O) -> (r: Self)
        ensures
            r.state() == start(rule, cfg, obs.state()),
    {
        SyncBook {
            rule,
            cfg,
            obs,
            phase: Phase::Syncing,
            book: L2Book::new(),
            last: 0,
            epoch: 0,
            buffer: SortedMap::new(),
            pending: SortedMap::new(),
            held: None,
            snapshot_req_at: None,
            last_exch_ts_ms: 0,
            stats: SyncStats::zero(),
        }
    }

    /// The phase.
    pub fn phase(&self) -> (r: Phase)
        ensures
            r == self.state().phase,
    {
        self.phase
    }

    /// The book (to be trusted only while `Live`).
    pub fn book(&self) -> (r: &L2Book)
        ensures
            r@ == self.state().book,
    {
        &self.book
    }

    /// The last update id applied.
    pub fn last_update_id(&self) -> (r: u64)
        ensures
            r == self.state().last,
    {
        self.last
    }

    /// The epoch: one more at each rebuild from a snapshot.
    pub fn epoch(&self) -> (r: u64)
        ensures
            r == self.state().epoch,
    {
        self.epoch
    }

    /// Exchange time of the last diff applied.
    pub fn last_exch_ts_ms(&self) -> (r: u64)
        ensures
            r == self.state().last_exch_ts_ms,
    {
        self.last_exch_ts_ms
    }

    /// The counters.
    pub fn stats(&self) -> (r: &SyncStats)
        ensures
            r@ == self.state().stats,
    {
        &self.stats
    }

    /// Diffs received less those accounted for: applied, duplicate, before the
    /// snapshot, overflowed, invalid, or still held.
    pub fn unaccounted(&self) -> (r: i64)
        ensures
            r == clamp_i64(
                self.state().stats.diffs_rx - self.state().stats.settled()
                    - self.state().buffer.len() - self.state().pending.len(),
            ),
    {
        let s = &self.stats;
        let settled: i128 = s.applied as i128 + s.stale as i128 + s.pre_snapshot as i128
            + s.buffer_dropped as i128 + s.invalid_dropped as i128;
        to_i64(
            s.diffs_rx as i128 - settled - self.buffer.len() as i128 - self.pending.len() as i128,
        )
    }

    /// Diffs held waiting for a missing one.
    pub fn pending_len(&self) -> (r: usize)
        ensures
            r == self.state().pending.len(),
    {
        self.pending.len()
    }

    /// Diffs in the synchronisation buffer.
    pub fn buffer_len(&self) -> (r: usize)
        ensures
            r == self.state().buffer.len(),
    {
        self.buffer.len()
    }

    /// The observer.
    pub fn observer(&self) -> (r: &O)
        ensures
            r.state() == self.state().obs,
    {
        &self.obs
    }

    /// The observer, to be changed.
    pub fn observer_mut(&mut self) -> (r: &mut O)
        ensures
            r.state() == old(self).state().obs,
            final(self).state() == (SyncState { obs: final(r).state(), ..old(self).state() }),
    {
        &mut self.obs
    }

    /// A diff comes by any line.
    pub fn on_diff(&mut self, d: DepthDiff, now_ms: u64) -> (st: Step)
        ensures
            (Progress { s: final(self).state(), st }) == on_diff_next::<R, O>(
                old(self).state(),
                d,
                now_ms,
            ),
    {
        let mut st = Step { applied: 0, need_snapshot: false, went_live: false, resync: None };
        self.stats.diffs_rx = add_u64(self.stats.diffs_rx, 1);
        match self.phase {
            Phase::Syncing => {
                let key = (d.first_id, d.last_id);
                if self.buffer.contains_key(&key) {
                    self.count_stale(d.rx.line);
                } else {
                    self.buffer.insert(key, d);
                    self.trim();
                }
                if self.held.is_some() {
                    self.try_install(now_ms, &mut st);
                } else if self.snapshot_req_at.is_none() {
                    self.request_snapshot(now_ms, &mut st);
                }
            },
            Phase::Live => self.on_live_diff(d, now_ms, &mut st),
        }
        st
    }

    /// A snapshot comes.
    pub fn on_snapshot(&mut self, s: DepthSnapshot, now_ms: u64) -> (st: Step)
        ensures
            (Progress { s: final(self).state(), st }) == on_snapshot_next::<R, O>(
                old(self).state(),
                s,
                now_ms,
            ),
    {
        let mut st = Step { applied: 0, need_snapshot: false, went_live: false, resync: None };
        self.stats.snapshots_rx = add_u64(self.stats.snapshots_rx, 1);
        self.snapshot_req_at = None;
        if self.phase == Phase::Live {
            self.stats.snapshots_ignored = add_u64(self.stats.snapshots_ignored, 1);
            return st;
        }
        self.held = Some(s);
        self.try_install(now_ms, &mut st);
        st
    }

    /// A pulse of the clock (timeouts of gap and of snapshot).
    pub fn on_tick(&mut self, now_ms: u64) -> (st: Step)
        ensures
            (Progress { s: final(self).state(), st }) == on_tick_next::<R, O>(
                old(self).state(),
                now_ms,
            ),
    {
        let mut st = Step { applied: 0, need_snapshot: false, went_live: false, resync: None };
        match self.phase {
            Phase::Live => {
                if let Some(t) = self.oldest_pending() {
                    if now_ms.saturating_sub(t) >= self.cfg.gap_timeout_ms {
                        self.resync(ResyncReason::GapTimeout, now_ms, &mut st);
                    }
                }
            },
            Phase::Syncing => {
                if let Some(t) = self.snapshot_req_at {
                    if now_ms.saturating_sub(t) >= self.cfg.snapshot_retry_ms {
                        self.request_snapshot(now_ms, &mut st);
                    }
                }
            },
        }
        st
    }

    /// Forces a resync.
    pub fn force_resync(&mut self, now_ms: u64) -> (st: Step)
        ensures
            (Progress { s: final(self).state(), st }) == force_resync_next::<R, O>(
                old(self).state(),
                now_ms,
            ),
    {
        let mut st = Step { applied: 0, need_snapshot: false, went_live: false, resync: None };
        self.resync(ResyncReason::Manual, now_ms, &mut st);
        st
    }

    /// The earliest time among the held diffs.
    fn oldest_pending(&self) -> (r: Option<u64>)
        ensures
            r == oldest(self.state().pending),
    {
        let mut best: Option<u64> = None;
        let n = self.pending.len();
        let mut i: usize = 0;
        while i < n
            invariant
                i <= n == self.pending@.len(),
                best == oldest(self.pending@.take(i as int)),
            decreases n - i,
        {
            let t: u64 = self.pending.value_at(i).1;
            assert(self.pending@.take(i + 1).drop_last() =~= self.pending@.take(i as int));
            best = match best {
                Some(o) if o <= t => Some(o),
                _ => Some(t),
            };
            i += 1;
        }
        assert(self.pending@.take(n as int) =~= self.pending@);
        best
    }

    /// Cuts the buffer to its limit.
    fn trim(&mut self)
        ensures
            final(self).state() == trimmed(old(self).state()),
    {
        while self.buffer.len() > self.cfg.max_buffer
            invariant
                trimmed(self.state()) == trimmed(old(self).state()),
            decreases self.state().buffer.len(),
        {
            let _ = self.buffer.pop_first();
            self.stats.buffer_dropped = add_u64(self.stats.buffer_dropped, 1);
        }
    }

    fn on_live_diff(&mut self, d: DepthDiff, now_ms: u64, st: &mut Step)
        ensures
            (Progress { s: final(self).state(), st: *final(st) }) == live_next::<R, O>(
                Progress { s: old(self).state(), st: *old(st) },
                d,
                now_ms,
            ),
    {
        match self.rule.chain(d.first_id, d.last_id, d.prev_last_id, self.last) {
            Class::Stale => self.count_stale(d.rx.line),
            Class::Next => {
                if self.apply(&d, now_ms, st) {
                    self.drain_pending(now_ms, st);
                }
            },
            Class::Ahead => {
                let key = (d.first_id, d.last_id);
                if self.pending.contains_key(&key) {
                    self.count_stale(d.rx.line);
                    return;
                }
                self.pending.insert(key, (d, now_ms));
                self.stats.ahead = add_u64(self.stats.ahead, 1);
                let n: u64 = self.pending.len() as u64;
                if self.stats.max_pending_seen < n {
                    self.stats.max_pending_seen = n;
                }
                if self.pending.len() > self.cfg.max_pending {
                    self.resync(ResyncReason::PendingOverflow, now_ms, st);
                }
            },
            Class::Invalid => {
                self.stats.invalid_dropped = add_u64(self.stats.invalid_dropped, 1);
                self.resync(ResyncReason::InvalidSequence, now_ms, st);
            },
        }
    }

    fn drain_pending(&mut self, now_ms: u64, st: &mut Step)
        ensures
            (Progress { s: final(self).state(), st: *final(st) }) == drain_next::<R, O>(
                Progress { s: old(self).state(), st: *old(st) },
                now_ms,
            ),
    {
        let ghost goal = drain_next::<R, O>(
            Progress { s: old(self).state(), st: *old(st) },
            now_ms,
        );
        while self.pending.len() > 0
            invariant
                drain_next::<R, O>(Progress { s: self.state(), st: *st }, now_ms) == goal,
            ensures
                (Progress { s: self.state(), st: *st }) == goal,
            decreases self.state().pending.len(),
        {
            let key = *self.pending.key_at(0);
            let held = self.pending.value_at(0);
            let line = held.0.rx.line;
            let prev = held.0.prev_last_id;
            match self.rule.chain(key.0, key.1, prev, self.last) {
                Class::Stale => {
                    let _ = self.pending.pop_first();
                    self.count_stale(line);
                },
                Class::Next => {
                    match self.pending.pop_first() {
                        Some(e) => {
                            self.stats.reordered_applied = add_u64(
                                self.stats.reordered_applied,
                                1,
                            );
                            let d = e.1.0;
                            if !self.apply(&d, now_ms, st) {
                                break;
                            }
                        },
                        None => {},
                    }
                },
                Class::Ahead => {
                    break;
                },
                Class::Invalid => {
                    self.resync(ResyncReason::InvalidSequence, now_ms, st);
                    break;
                },
            }
        }
    }

    /// Applies the levels of one side.
    fn apply_side(&mut self, side: Side, levels: &Vec<Level>, ts: u64)
        ensures
            ({
                let (b, o) = levels_next::<O>(
                    old(self).state().book,
                    old(self).state().obs,
                    side,
                    levels@,
                    ts,
                );
                final(self).state() == (SyncState { book: b, obs: o, ..old(self).state() })
            }),
    {
        let mut i: usize = 0;
        while i < levels.len()
            invariant
                i <= levels@.len(),
                ({
                    let (b, o) = levels_next::<O>(
                        old(self).state().book,
                        old(self).state().obs,
                        side,
                        levels@.take(i as int),
                        ts,
                    );
                    self.state() == (SyncState { book: b, obs: o, ..old(self).state() })
                }),
            decreases levels@.len() - i,
        {
            let l = levels[i];
            assert(levels@.take(i + 1).drop_last() =~= levels@.take(i as int));
            let prev = self.book.set(side, l.px, l.qty);
            self.obs.on_level(side, l.px, prev, l.qty, ts);
            i += 1;
        }
        assert(levels@.take(i as int) =~= levels@);
    }

    /// Applies a diff. Gives `false` if it caused a resync.
    fn apply(&mut self, d: &DepthDiff, now_ms: u64, st: &mut Step) -> (ok: bool)
        ensures
            (Progress { s: final(self).state(), st: *final(st) }) == apply_next::<R, O>(
                Progress { s: old(self).state(), st: *old(st) },
                *d,
                now_ms,
            ),
            ok == !cross_resyncs(
                absorb_diff::<R, O>(Progress { s: old(self).state(), st: *old(st) }, *d).s,
            ),
    {
        let ts = d.exch_ts_ms;
        self.apply_side(Side::Bid, &d.bids, ts);
        self.apply_side(Side::Ask, &d.asks, ts);
        self.last = d.last_id;
        self.last_exch_ts_ms = ts;
        self.stats.applied = add_u64(self.stats.applied, 1);
        bump_line(&mut self.stats.applied_by_line, d.rx.line);
        st.applied = st.applied.saturating_add(1);
        self.obs.on_diff_applied(d);
        assert((Progress { s: self.state(), st: *st }) =~= absorb_diff::<R, O>(
            Progress { s: old(self).state(), st: *old(st) },
            *d,
        ));
        if self.book.is_crossed() {
            self.stats.crossed_seen = add_u64(self.stats.crossed_seen, 1);
            if self.cfg.cross_policy == CrossPolicy::Resync {
                self.resync(ResyncReason::Crossed, now_ms, st);
                return false;
            }
        }
        true
    }

    /// Discards the held snapshot and asks for another.
    fn drop_held(&mut self, now_ms: u64, st: &mut Step)
        ensures
            (Progress { s: final(self).state(), st: *final(st) }) == unbridgeable_next(
                Progress { s: old(self).state(), st: *old(st) },
                now_ms,
            ),
    {
        self.held = None;
        self.stats.snapshots_unbridgeable = add_u64(self.stats.snapshots_unbridgeable, 1);
        self.request_snapshot(now_ms, st);
    }

    fn try_install(&mut self, now_ms: u64, st: &mut Step)
        ensures
            (Progress { s: final(self).state(), st: *final(st) }) == try_install_next::<R, O>(
                Progress { s: old(self).state(), st: *old(st) },
                now_ms,
            ),
    {
        let snap_id = match &self.held {
            Some(s) => s.last_update_id,
            None => {
                return;
            },
        };
        if self.buffer.is_empty() {
            return;
        }
        if self.rule.snapshot_too_old(self.buffer.key_at(0).0, snap_id) {
            self.drop_held(now_ms, st);
            return;
        }
        let ghost goal = seek_next::<R, O>(
            Progress { s: old(self).state(), st: *old(st) },
            now_ms,
        );
        loop
            invariant
                seek_next::<R, O>(Progress { s: self.state(), st: *st }, now_ms) == goal,
                self.held is Some,
                self.held->0.last_update_id == snap_id,
                goal == try_install_next::<R, O>(
                    Progress { s: old(self).state(), st: *old(st) },
                    now_ms,
                ),
            ensures
                seek_next::<R, O>(Progress { s: self.state(), st: *st }, now_ms) == goal,
                self.held is Some,
                self.held->0.last_update_id == snap_id,
                self.state().buffer.len() > 0,
                self.state().rule.bridges(
                    self.state().buffer[0].0.0,
                    self.state().buffer[0].0.1,
                    self.state().buffer[0].1.prev_last_id,
                    snap_id,
                ) == Class::Next,
            decreases self.state().buffer.len(),
        {
            if self.buffer.is_empty() {
                return;
            }
            let key = *self.buffer.key_at(0);
            let prev = self.buffer.value_at(0).prev_last_id;
            match self.rule.bridge(key.0, key.1, prev, snap_id) {
                Class::Stale => {
                    let _ = self.buffer.pop_first();
                    self.stats.pre_snapshot = add_u64(self.stats.pre_snapshot, 1);
                },
                Class::Next => {
                    break;
                },
                Class::Ahead => {
                    self.drop_held(now_ms, st);
                    return;
                },
                Class::Invalid => {
                    self.drop_held(now_ms, st);
                    return;
                },
            }
        }
        self.install(now_ms, st);
    }

    /// Makes the held snapshot the book, bridged by the first diff of the buffer.
    fn install(&mut self, now_ms: u64, st: &mut Step)
        requires
            old(self).state().held is Some,
            old(self).state().buffer.len() > 0,
        ensures
            (Progress { s: final(self).state(), st: *final(st) }) == install_next::<R, O>(
                Progress { s: old(self).state(), st: *old(st) },
                now_ms,
            ),
    {
        let ghost p0 = Progress { s: old(self).state(), st: *old(st) };
        let mut held: Option<DepthSnapshot> = None;
        core::mem::swap(&mut held, &mut self.held);
        let snap = match held {
            Some(s) => s,
            None => {
                return;
            },
        };
        self.book.load_snapshot(&snap);
        self.last = snap.last_update_id;
        self.epoch = add_u64(self.epoch, 1);
        self.phase = Phase::Live;
        self.pending.clear();
        self.obs.on_rebuild(self.epoch, &self.book);
        st.went_live = true;
        let first = match self.buffer.pop_first() {
            Some(e) => e.1,
            None => {
                return;
            },
        };
        assert((Progress { s: self.state(), st: *st }) =~= rebuilt::<R, O>(p0));
        if !self.apply(&first, now_ms, st) {
            return;
        }
        let mut rest: SortedMap<(u64, u64), DepthDiff> = SortedMap::new();
        core::mem::swap(&mut rest, &mut self.buffer);
        let ghost goal = install_next::<R, O>(p0, now_ms);
        assert(feed_next::<R, O>(Progress { s: self.state(), st: *st }, rest@, now_ms) == goal) by {
            let a = apply_next::<R, O>(rebuilt::<R, O>(p0), first, now_ms);
            assert((Progress { s: self.state(), st: *st })
                =~= (Progress { s: SyncState { buffer: Seq::empty(), ..a.s }, ..a }));
        }
        while rest.len() > 0
            invariant
                feed_next::<R, O>(Progress { s: self.state(), st: *st }, rest@, now_ms) == goal,
            decreases rest@.len(),
        {
            match rest.pop_first() {
                Some(e) => {
                    if self.phase == Phase::Live {
                        self.on_live_diff(e.1, now_ms, st);
                    } else {
                        self.buffer.insert(e.0, e.1);
                    }
                },
                None => {},
            }
        }
    }

    fn resync(&mut self, reason: ResyncReason, now_ms: u64, st: &mut Step)
        ensures
            (Progress { s: final(self).state(), st: *final(st) }) == resync_next::<R, O>(
                Progress { s: old(self).state(), st: *old(st) },
                reason,
                now_ms,
            ),
    {
        match reason {
            ResyncReason::GapTimeout => {
                self.stats.resync_gap_timeout = add_u64(self.stats.resync_gap_timeout, 1);
            },
            ResyncReason::PendingOverflow => {
                self.stats.resync_pending_overflow = add_u64(self.stats.resync_pending_overflow, 1);
            },
            ResyncReason::InvalidSequence => {
                self.stats.resync_invalid_sequence = add_u64(self.stats.resync_invalid_sequence, 1);
            },
            ResyncReason::Crossed => {
                self.stats.resync_crossed = add_u64(self.stats.resync_crossed, 1);
            },
            ResyncReason::Manual => {
                self.stats.resync_manual = add_u64(self.stats.resync_manual, 1);
            },
        }
        st.resync = Some(reason);
        self.obs.on_invalidate(self.epoch, reason);
        self.phase = Phase::Syncing;
        self.book.clear();
        self.last = 0;
        self.held = None;
        let ghost before = self.state();
        let mut pending: SortedMap<(u64, u64), (DepthDiff, u64)> = SortedMap::new();
        core::mem::swap(&mut pending, &mut self.pending);
        let ghost all = pending@;
        let ghost mut done: int = 0;
        assert(all.skip(0) =~= all);
        assert(all.take(0) =~= Seq::empty());
        while pending.len() > 0
            invariant
                0 <= done <= all.len(),
                pending@ == all.skip(done),
                self.state() == (SyncState {
                    buffer: absorbed(before.buffer, all.take(done)),
                    pending: Seq::empty(),
                    ..before
                }),
            ensures
                done == all.len(),
            decreases pending@.len(),
        {
            match pending.pop_first() {
                Some(e) => {
                    proof {
                        assert(all.take(done + 1).drop_last() =~= all.take(done));
                        assert(all.skip(done).skip(1) =~= all.skip(done + 1));
                        done = done + 1;
                    }
                    self.buffer.insert(e.0, e.1.0);
                },
                None => {},
            }
        }
        assert(all.take(done) =~= all);
        self.request_snapshot(now_ms, st);
    }

    fn request_snapshot(&mut self, now_ms: u64, st: &mut Step)
        ensures
            (Progress { s: final(self).state(), st: *final(st) }) == request_next(
                Progress { s: old(self).state(), st: *old(st) },
                now_ms,
            ),
    {
        self.snapshot_req_at = Some(now_ms);
        self.stats.snapshots_requested = add_u64(self.stats.snapshots_requested, 1);
        st.need_snapshot = true;
    }

    fn count_stale(&mut self, line: u8)
        ensures
            final(self).state() == stale_next(old(self).state(), line),
    {
        self.stats.stale = add_u64(self.stats.stale, 1);
        bump_line(&mut self.stats.stale_by_line, line);
    }
}

} // verus!

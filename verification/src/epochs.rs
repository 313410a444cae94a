//! Epochs: the observer is told of each rebuild exactly once, and they are numbered.

use crate::book::BookState;
use crate::conservation::{run, take, Input};
use crate::event::{DepthDiff, Level, Side};
use crate::fixed::{Px, Qty};
use crate::observer::BookObserver;
use crate::rule::{Class, SeqRule};
use crate::sync::{
    absorb_diff, apply_next, cross_resyncs, drain_next, feed_next, gathered, inc, install_next,
    levels_next, live_next, rebuilt, seek_next, stale_next, start, trimmed, Phase, Progress,
    ResyncReason, StatsView, Step, SyncConfig, SyncState,
};
use crate::ordmap::{holds, put};
use vstd::prelude::*;

verus! {

/// `log` reads from the state of an observer the rebuilds that it was told of.
pub open spec fn logs_rebuilds<O: BookObserver>(
    log: spec_fn(O::State) -> Seq<(u64, BookState)>,
) -> bool {
    &&& forall|o: O::State, epoch: u64, book: BookState|
        log(#[trigger] O::rebuild_next(o, epoch, book)) == log(o).push((epoch, book))
    &&& forall|o: O::State, side: Side, px: Px, prev: Qty, new: Qty, ts: u64|
        log(#[trigger] O::level_next(o, side, px, prev, new, ts)) == log(o)
    &&& forall|o: O::State, d: DepthDiff| log(#[trigger] O::diff_next(o, d)) == log(o)
    &&& forall|o: O::State, epoch: u64, reason: ResyncReason|
        log(#[trigger] O::invalidate_next(o, epoch, reason)) == log(o)
}

/// No rebuild happened between the two.
spec fn quiet<R, S>(
    p: Progress<R, S>,
    q: Progress<R, S>,
    log: spec_fn(S) -> Seq<(u64, BookState)>,
) -> bool {
    &&& q.s.epoch == p.s.epoch
    &&& q.st.went_live == p.st.went_live
    &&& log(q.s.obs) == log(p.s.obs)
}

/// The book was rebuilt once between the two, from a snapshot that shows `book`.
spec fn rebuilt_once<R, S>(
    p: Progress<R, S>,
    q: Progress<R, S>,
    book: BookState,
    log: spec_fn(S) -> Seq<(u64, BookState)>,
) -> bool {
    &&& q.s.epoch == inc(p.s.epoch)
    &&& q.st.went_live
    &&& log(q.s.obs) == log(p.s.obs).push((q.s.epoch, book))
}

proof fn lemma_levels_quiet<O: BookObserver>(
    book: BookState,
    obs: O::State,
    side: Side,
    levels: Seq<Level>,
    ts: u64,
    log: spec_fn(O::State) -> Seq<(u64, BookState)>,
)
    requires
        logs_rebuilds::<O>(log),
    ensures
        log(levels_next::<O>(book, obs, side, levels, ts).1) == log(obs),
    decreases levels.len(),
{
    if levels.len() > 0 {
        lemma_levels_quiet::<O>(book, obs, side, levels.drop_last(), ts, log);
    }
}

proof fn lemma_apply_quiet<R, O: BookObserver>(
    p: Progress<R, O::State>,
    d: DepthDiff,
    now_ms: u64,
    log: spec_fn(O::State) -> Seq<(u64, BookState)>,
)
    requires
        logs_rebuilds::<O>(log),
    ensures
        quiet(p, apply_next::<R, O>(p, d, now_ms), log),
{
    let (b1, o1) = levels_next::<O>(p.s.book, p.s.obs, Side::Bid, d.bids@, d.exch_ts_ms);
    lemma_levels_quiet::<O>(p.s.book, p.s.obs, Side::Bid, d.bids@, d.exch_ts_ms, log);
    lemma_levels_quiet::<O>(b1, o1, Side::Ask, d.asks@, d.exch_ts_ms, log);
    assert(quiet(p, absorb_diff::<R, O>(p, d), log));
}

proof fn lemma_drain_quiet<R: SeqRule, O: BookObserver>(
    p: Progress<R, O::State>,
    now_ms: u64,
    log: spec_fn(O::State) -> Seq<(u64, BookState)>,
)
    requires
        logs_rebuilds::<O>(log),
    ensures
        quiet(p, drain_next::<R, O>(p, now_ms), log),
    decreases p.s.pending.len(),
{
    if p.s.pending.len() > 0 {
        let (key, (d, t)) = p.s.pending[0];
        let rest = SyncState { pending: p.s.pending.skip(1), ..p.s };
        match p.s.rule.chains(key.0, key.1, d.prev_last_id, p.s.last) {
            Class::Stale => {
                lemma_drain_quiet::<R, O>(
                    Progress { s: stale_next(rest, d.rx.line), ..p },
                    now_ms,
                    log,
                );
            },
            Class::Next => {
                let q = Progress {
                    s: SyncState {
                        stats: StatsView {
                            reordered_applied: inc(rest.stats.reordered_applied),
                            ..rest.stats
                        },
                        ..rest
                    },
                    ..p
                };
                lemma_apply_quiet::<R, O>(q, d, now_ms, log);
                if !cross_resyncs(absorb_diff::<R, O>(q, d).s) {
                    lemma_drain_quiet::<R, O>(apply_next::<R, O>(q, d, now_ms), now_ms, log);
                }
            },
            _ => {},
        }
    }
}

proof fn lemma_live_quiet<R: SeqRule, O: BookObserver>(
    p: Progress<R, O::State>,
    d: DepthDiff,
    now_ms: u64,
    log: spec_fn(O::State) -> Seq<(u64, BookState)>,
)
    requires
        logs_rebuilds::<O>(log),
    ensures
        quiet(p, live_next::<R, O>(p, d, now_ms), log),
{
    lemma_apply_quiet::<R, O>(p, d, now_ms, log);
    lemma_drain_quiet::<R, O>(apply_next::<R, O>(p, d, now_ms), now_ms, log);
}

proof fn lemma_feed_quiet<R: SeqRule, O: BookObserver>(
    p: Progress<R, O::State>,
    rest: Seq<((u64, u64), DepthDiff)>,
    now_ms: u64,
    log: spec_fn(O::State) -> Seq<(u64, BookState)>,
)
    requires
        logs_rebuilds::<O>(log),
    ensures
        quiet(p, feed_next::<R, O>(p, rest, now_ms), log),
    decreases rest.len(),
{
    if rest.len() > 0 {
        let (key, d) = rest[0];
        let q = if p.s.phase == Phase::Live {
            live_next::<R, O>(p, d, now_ms)
        } else {
            Progress { s: SyncState { buffer: put(p.s.buffer, key, d), ..p.s }, ..p }
        };
        lemma_live_quiet::<R, O>(p, d, now_ms, log);
        lemma_feed_quiet::<R, O>(q, rest.skip(1), now_ms, log);
    }
}

proof fn lemma_install_once<R: SeqRule, O: BookObserver>(
    p: Progress<R, O::State>,
    now_ms: u64,
    log: spec_fn(O::State) -> Seq<(u64, BookState)>,
)
    requires
        logs_rebuilds::<O>(log),
    ensures
        rebuilt_once(
            p,
            install_next::<R, O>(p, now_ms),
            BookState::of_snapshot(p.s.held->0),
            log,
        ),
{
    let first = p.s.buffer[0].1;
    let q = rebuilt::<R, O>(p);
    let a = apply_next::<R, O>(q, first, now_ms);
    lemma_apply_quiet::<R, O>(q, first, now_ms, log);
    lemma_feed_quiet::<R, O>(
        Progress { s: SyncState { buffer: Seq::empty(), ..a.s }, ..a },
        a.s.buffer,
        now_ms,
        log,
    );
}

proof fn lemma_seek_once<R: SeqRule, O: BookObserver>(
    p: Progress<R, O::State>,
    now_ms: u64,
    log: spec_fn(O::State) -> Seq<(u64, BookState)>,
)
    requires
        logs_rebuilds::<O>(log),
        !p.st.went_live,
    ensures
        ({
            let q = seek_next::<R, O>(p, now_ms);
            if q.st.went_live {
                rebuilt_once(p, q, BookState::of_snapshot(p.s.held->0), log)
            } else {
                quiet(p, q, log)
            }
        }),
    decreases p.s.buffer.len(),
{
    if p.s.buffer.len() > 0 {
        let (key, d) = p.s.buffer[0];
        match p.s.rule.bridges(key.0, key.1, d.prev_last_id, (p.s.held->0).last_update_id) {
            Class::Stale => {
                lemma_seek_once::<R, O>(
                    Progress {
                        s: SyncState {
                            buffer: p.s.buffer.skip(1),
                            stats: StatsView {
                                pre_snapshot: inc(p.s.stats.pre_snapshot),
                                ..p.s.stats
                            },
                            ..p.s
                        },
                        ..p
                    },
                    now_ms,
                    log,
                );
            },
            Class::Next => lemma_install_once::<R, O>(p, now_ms, log),
            _ => {},
        }
    }
}

proof fn lemma_trimmed_quiet<R, S>(s: SyncState<R, S>)
    ensures
        trimmed(s).epoch == s.epoch,
        trimmed(s).obs == s.obs,
        trimmed(s).held == s.held,
    decreases s.buffer.len(),
{
    if s.buffer.len() > s.cfg.max_buffer {
        lemma_trimmed_quiet(
            SyncState {
                buffer: s.buffer.skip(1),
                stats: StatsView { buffer_dropped: inc(s.stats.buffer_dropped), ..s.stats },
                ..s
            },
        );
    }
}

/// The snapshot that an input may install.
pub open spec fn installable<R, S>(s: SyncState<R, S>, i: Input) -> BookState {
    match i {
        Input::Snapshot(snap, t) => BookState::of_snapshot(snap),
        _ => BookState::of_snapshot(s.held->0),
    }
}

/// In each of the four calls the epoch grows by one exactly when the step says that
/// the book went live, and exactly then the observer is told of one rebuild: of
/// the new epoch, with the book of the snapshot installed.
pub proof fn law_each_rebuild_is_told_once<R: SeqRule, O: BookObserver>(
    s: SyncState<R, O::State>,
    i: Input,
    log: spec_fn(O::State) -> Seq<(u64, BookState)>,
)
    requires
        logs_rebuilds::<O>(log),
        s.epoch < u64::MAX,
    ensures
        ({
            let q = take::<R, O>(s, i);
            if q.st.went_live {
                &&& q.s.epoch == s.epoch + 1
                &&& log(q.s.obs) == log(s.obs).push((q.s.epoch, installable(s, i)))
            } else {
                &&& q.s.epoch == s.epoch
                &&& log(q.s.obs) == log(s.obs)
            }
        }),
{
    reveal(take);
    match i {
        Input::Diff(d, now) => {
            let s1 = SyncState {
                stats: StatsView { diffs_rx: inc(s.stats.diffs_rx), ..s.stats },
                ..s
            };
            match s1.phase {
                Phase::Live => {
                    lemma_live_quiet::<R, O>(Progress { s: s1, st: Step::none() }, d, now, log);
                },
                Phase::Syncing => {
                    let key = (d.first_id, d.last_id);
                    if !holds(s1.buffer, key) {
                        lemma_trimmed_quiet(SyncState { buffer: put(s1.buffer, key, d), ..s1 });
                    }
                    let p = Progress { s: gathered(s1, d), st: Step::none() };
                    lemma_seek_once::<R, O>(p, now, log);
                },
            }
        },
        Input::Snapshot(snap, now) => {
            let s1 = SyncState {
                held: Some(snap),
                snapshot_req_at: None,
                stats: StatsView { snapshots_rx: inc(s.stats.snapshots_rx), ..s.stats },
                ..s
            };
            lemma_seek_once::<R, O>(Progress { s: s1, st: Step::none() }, now, log);
        },
        Input::Tick(now) => {},
        Input::Force(now) => {},
    }
}

/// Over a whole execution the rebuilds that the observer was told of carry the
/// epochs 1, 2, 3 and so on, and the last of them is the present epoch.
pub proof fn law_epochs_are_numbered<R: SeqRule, O: BookObserver>(
    rule: R,
    cfg: SyncConfig,
    obs: O::State,
    inputs: Seq<Input>,
    log: spec_fn(O::State) -> Seq<(u64, BookState)>,
)
    requires
        logs_rebuilds::<O>(log),
        log(obs).len() == 0,
        inputs.len() < u64::MAX,
    ensures
        ({
            let s = run::<R, O>(start(rule, cfg, obs), inputs);
            &&& s.epoch == log(s.obs).len()
            &&& s.epoch <= inputs.len()
            &&& forall|k: int| 0 <= k < s.epoch ==> (#[trigger] log(s.obs)[k]).0 == k + 1
        }),
    decreases inputs.len(),
{
    if inputs.len() > 0 {
        let t = inputs.drop_last();
        law_epochs_are_numbered::<R, O>(rule, cfg, obs, t, log);
        let s = run::<R, O>(start(rule, cfg, obs), t);
        law_each_rebuild_is_told_once::<R, O>(s, inputs.last(), log);
    }
}

} // verus!

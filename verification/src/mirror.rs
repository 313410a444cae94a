//! The aligner behind a synchronised book: its mirror is the book.

use crate::align::{align_start, batched, forced_next, AlignState, Aligner, AlignerConfig, FlowSink};
use crate::conservation::{run, take, Input};
use crate::event::{DepthDiff, Side};
use crate::flow_chain::{law_mirror_follows_book, lemma_forced_chain, lemma_ready_chain, mirrors};
use crate::ordmap::put;
use crate::rule::{Class, SeqRule};
use crate::sync::{
    absorb_diff, apply_next, cross_resyncs, drain_next, feed_next, gathered, inc, install_next,
    levels_next, live_next, rebuilt, seek_next, stale_next, start, trimmed, Phase, Progress,
    StatsView, Step, SyncConfig, SyncState,
};
use vstd::prelude::*;

verus! {

/// While the book is live so is the aligner, with the book as its mirror; while the
/// book synchronises the aligner is out of sync. No mismatch was ever counted.
pub open spec fn in_step<R, S>(s: SyncState<R, AlignState<S>>) -> bool {
    &&& s.phase == Phase::Live ==> s.obs.live && mirrors(s.obs, s.book)
    &&& s.phase == Phase::Syncing ==> !s.obs.live
    &&& s.obs.stats.mirror_mismatch == 0
}

proof fn lemma_absorb_step<R, K: FlowSink>(
    p: Progress<R, AlignState<K::State>>,
    d: DepthDiff,
)
    requires
        in_step(p.s),
        p.s.phase == Phase::Live,
    ensures
        in_step(absorb_diff::<R, Aligner<K>>(p, d).s),
        absorb_diff::<R, Aligner<K>>(p, d).s.phase == Phase::Live,
{
    let (b1, o1) = levels_next::<Aligner<K>>(
        p.s.book,
        p.s.obs,
        Side::Bid,
        d.bids@,
        d.exch_ts_ms,
    );
    law_mirror_follows_book::<K>(p.s.book, p.s.obs, Side::Bid, d.bids@, d.exch_ts_ms);
    law_mirror_follows_book::<K>(b1, o1, Side::Ask, d.asks@, d.exch_ts_ms);
    let (b2, o2) = levels_next::<Aligner<K>>(b1, o1, Side::Ask, d.asks@, d.exch_ts_ms);
    lemma_forced_chain::<K>(batched(o2, d));
    lemma_ready_chain::<K>(forced_next::<K>(batched(o2, d)));
}

proof fn lemma_apply_step<R, K: FlowSink>(
    p: Progress<R, AlignState<K::State>>,
    d: DepthDiff,
    now_ms: u64,
)
    requires
        in_step(p.s),
        p.s.phase == Phase::Live,
    ensures
        in_step(apply_next::<R, Aligner<K>>(p, d, now_ms).s),
        !cross_resyncs(absorb_diff::<R, Aligner<K>>(p, d).s) ==> apply_next::<R, Aligner<K>>(
            p,
            d,
            now_ms,
        ).s.phase == Phase::Live && apply_next::<R, Aligner<K>>(p, d, now_ms).s.pending
            == p.s.pending,
{
    lemma_absorb_step::<R, K>(p, d);
}

proof fn lemma_drain_step<R: SeqRule, K: FlowSink>(
    p: Progress<R, AlignState<K::State>>,
    now_ms: u64,
)
    requires
        in_step(p.s),
        p.s.phase == Phase::Live,
    ensures
        in_step(drain_next::<R, Aligner<K>>(p, now_ms).s),
    decreases p.s.pending.len(),
{
    if p.s.pending.len() > 0 {
        let (key, (d, t)) = p.s.pending[0];
        let rest = SyncState { pending: p.s.pending.skip(1), ..p.s };
        match p.s.rule.chains(key.0, key.1, d.prev_last_id, p.s.last) {
            Class::Stale => {
                lemma_drain_step::<R, K>(
                    Progress { s: stale_next(rest, d.rx.line), ..p },
                    now_ms,
                );
            },
            Class::Next => {
                let q = Progress {
                    s: SyncState {
                        stats: StatsView {
                            reordered_applied: inc(rest.stats.reordered_applied),
                            ..rest.stats
                        },
                        ..rest
                    },
                    ..p
                };
                lemma_apply_step::<R, K>(q, d, now_ms);
                if !cross_resyncs(absorb_diff::<R, Aligner<K>>(q, d).s) {
                    lemma_drain_step::<R, K>(apply_next::<R, Aligner<K>>(q, d, now_ms), now_ms);
                }
            },
            Class::Ahead => {},
            Class::Invalid => {},
        }
    }
}

proof fn lemma_live_step<R: SeqRule, K: FlowSink>(
    p: Progress<R, AlignState<K::State>>,
    d: DepthDiff,
    now_ms: u64,
)
    requires
        in_step(p.s),
        p.s.phase == Phase::Live,
    ensures
        in_step(live_next::<R, Aligner<K>>(p, d, now_ms).s),
{
    lemma_apply_step::<R, K>(p, d, now_ms);
    if !cross_resyncs(absorb_diff::<R, Aligner<K>>(p, d).s) {
        lemma_drain_step::<R, K>(apply_next::<R, Aligner<K>>(p, d, now_ms), now_ms);
    }
}

proof fn lemma_feed_step<R: SeqRule, K: FlowSink>(
    p: Progress<R, AlignState<K::State>>,
    rest: Seq<((u64, u64), DepthDiff)>,
    now_ms: u64,
)
    requires
        in_step(p.s),
    ensures
        in_step(feed_next::<R, Aligner<K>>(p, rest, now_ms).s),
    decreases rest.len(),
{
    if rest.len() > 0 {
        let (key, d) = rest[0];
        let q = if p.s.phase == Phase::Live {
            lemma_live_step::<R, K>(p, d, now_ms);
            live_next::<R, Aligner<K>>(p, d, now_ms)
        } else {
            Progress { s: SyncState { buffer: put(p.s.buffer, key, d), ..p.s }, ..p }
        };
        lemma_feed_step::<R, K>(q, rest.skip(1), now_ms);
    }
}

proof fn lemma_install_step<R: SeqRule, K: FlowSink>(
    p: Progress<R, AlignState<K::State>>,
    now_ms: u64,
)
    requires
        in_step(p.s),
        p.s.phase == Phase::Syncing,
    ensures
        in_step(install_next::<R, Aligner<K>>(p, now_ms).s),
{
    let first = p.s.buffer[0].1;
    let q = rebuilt::<R, Aligner<K>>(p);
    assert(in_step(q.s));
    lemma_apply_step::<R, K>(q, first, now_ms);
    let a = apply_next::<R, Aligner<K>>(q, first, now_ms);
    if !cross_resyncs(absorb_diff::<R, Aligner<K>>(q, first).s) {
        lemma_feed_step::<R, K>(
            Progress { s: SyncState { buffer: Seq::empty(), ..a.s }, ..a },
            a.s.buffer,
            now_ms,
        );
    }
}

proof fn lemma_seek_step<R: SeqRule, K: FlowSink>(
    p: Progress<R, AlignState<K::State>>,
    now_ms: u64,
)
    requires
        in_step(p.s),
        p.s.phase == Phase::Syncing,
    ensures
        in_step(seek_next::<R, Aligner<K>>(p, now_ms).s),
    decreases p.s.buffer.len(),
{
    if p.s.buffer.len() > 0 {
        let (key, d) = p.s.buffer[0];
        let snap_id = (p.s.held->0).last_update_id;
        match p.s.rule.bridges(key.0, key.1, d.prev_last_id, snap_id) {
            Class::Stale => {
                lemma_seek_step::<R, K>(
                    Progress {
                        s: SyncState {
                            buffer: p.s.buffer.skip(1),
                            stats: StatsView {
                                pre_snapshot: inc(p.s.stats.pre_snapshot),
                                ..p.s.stats
                            },
                            ..p.s
                        },
                        ..p
                    },
                    now_ms,
                );
            },
            Class::Next => {
                lemma_install_step::<R, K>(p, now_ms);
            },
            Class::Ahead => {},
            Class::Invalid => {},
        }
    }
}

proof fn lemma_trimmed_step<R, S>(s: SyncState<R, S>)
    ensures
        trimmed(s).obs == s.obs,
        trimmed(s).phase == s.phase,
        trimmed(s).book == s.book,
    decreases s.buffer.len(),
{
    if s.buffer.len() > s.cfg.max_buffer {
        lemma_trimmed_step(
            SyncState {
                buffer: s.buffer.skip(1),
                stats: StatsView { buffer_dropped: inc(s.stats.buffer_dropped), ..s.stats },
                ..s
            },
        );
    }
}

proof fn lemma_take_step<R: SeqRule, K: FlowSink>(
    s: SyncState<R, AlignState<K::State>>,
    i: Input,
)
    requires
        in_step(s),
    ensures
        in_step(take::<R, Aligner<K>>(s, i).s),
{
    reveal(take);
    match i {
        Input::Diff(d, t) => {
            let s1 = SyncState {
                stats: StatsView { diffs_rx: inc(s.stats.diffs_rx), ..s.stats },
                ..s
            };
            match s1.phase {
                Phase::Live => {
                    lemma_live_step::<R, K>(Progress { s: s1, st: Step::none() }, d, t);
                },
                Phase::Syncing => {
                    lemma_trimmed_step(
                        SyncState { buffer: put(s1.buffer, (d.first_id, d.last_id), d), ..s1 },
                    );
                    lemma_seek_step::<R, K>(
                        Progress { s: gathered(s1, d), st: Step::none() },
                        t,
                    );
                },
            }
        },
        Input::Snapshot(snap, t) => {
            let s1 = SyncState {
                held: Some(snap),
                snapshot_req_at: None,
                stats: StatsView { snapshots_rx: inc(s.stats.snapshots_rx), ..s.stats },
                ..s
            };
            if s.phase == Phase::Syncing {
                lemma_seek_step::<R, K>(Progress { s: s1, st: Step::none() }, t);
            }
        },
        Input::Tick(t) => {},
        Input::Force(t) => {},
    }
}

/// Whatever the inputs of the book, the mirror of its aligner is the book while it
/// is live, and no previous quantity ever differed from the mirror.
pub proof fn law_mirror_is_the_book<R: SeqRule, K: FlowSink>(
    rule: R,
    cfg: SyncConfig,
    align: AlignerConfig,
    sink: K::State,
    inputs: Seq<Input>,
)
    ensures
        in_step(run::<R, Aligner<K>>(start(rule, cfg, align_start(align, sink)), inputs)),
    decreases inputs.len(),
{
    if inputs.len() > 0 {
        law_mirror_is_the_book::<R, K>(rule, cfg, align, sink, inputs.drop_last());
        lemma_take_step::<R, K>(
            run::<R, Aligner<K>>(
                start(rule, cfg, align_start(align, sink)),
                inputs.drop_last(),
            ),
            inputs.last(),
        );
    }
}

} // verus!

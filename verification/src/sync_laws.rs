//! What each input does to a book in course of synchronisation, and how it is counted.

use crate::book::BookState;
use crate::event::{DepthDiff, DepthSnapshot};
use crate::observer::BookObserver;
use crate::ordmap::{find, holds, lemma_put, sorted};
use crate::rule::{BinanceFuturesRule, BinanceSpotRule, Class, OkxRule, SeqRule};
use crate::sync::{
    absorb_diff, apply_next, bump, force_resync_next, oldest, on_diff_next, on_snapshot_next,
    on_tick_next, rebuilt, resync_next, trimmed, CrossPolicy, Phase, Progress, ResyncReason,
    SyncState,
};
use vstd::prelude::*;

verus! {

/// Of Binance spot: a diff is old where it ends at or before the book, next where it starts
/// no later than right after it, and else early. None is impossible.
pub proof fn law_spot_diffs_are_told_apart(first: u64, last: u64, prev: Option<u64>, local: u64)
    ensures
        ({
            let c = BinanceSpotRule.chains(first, last, prev, local);
            &&& c == Class::Stale <==> last <= local
            &&& c == Class::Next <==> first - 1 <= local < last
            &&& c == Class::Ahead <==> local < last && local < first - 1
            &&& BinanceSpotRule.bridges(first, last, prev, local) == c
            &&& BinanceSpotRule.too_old(first, local) <==> local < first - 1
        }),
{
}

/// Of Binance futures: live diffs are linked by the id before; one that bridges a snapshot
/// has the snapshot's id within.
pub proof fn law_futures_diffs_are_told_apart(
    first: u64,
    last: u64,
    prev: Option<u64>,
    local: u64,
)
    ensures
        ({
            let c = BinanceFuturesRule.chains(first, last, prev, local);
            &&& c == Class::Stale <==> last <= local
            &&& c == Class::Next <==> last > local && prev == Some(local)
            &&& c == Class::Ahead <==> last > local && prev is Some && prev->0 > local
            &&& c == Class::Invalid <==> last > local && (prev is None || prev->0 < local)
        }),
        ({
            let c = BinanceFuturesRule.bridges(first, last, prev, local);
            &&& c == Class::Stale <==> last < local
            &&& c == Class::Next <==> first <= local <= last
            &&& c == Class::Ahead <==> last >= local && first > local
            &&& c != Class::Invalid
        }),
        BinanceFuturesRule.too_old(first, local) <==> local < first,
{
}

/// Of OKX: diffs are linked by the sequence number before; one that says nothing new is old,
/// and one that goes back is impossible.
pub proof fn law_okx_diffs_are_told_apart(first: u64, last: u64, prev: Option<u64>, local: u64)
    ensures
        ({
            let c = OkxRule.chains(first, last, prev, local);
            &&& prev matches Some(p) ==> {
                &&& last < p ==> c == Class::Invalid
                &&& last >= p ==> (c == Class::Stale <==> last <= local)
                &&& last >= p ==> (c == Class::Next <==> last > local && p == local)
                &&& last >= p ==> (c == Class::Ahead <==> last > local && p > local)
                &&& last >= p ==> (c == Class::Invalid <==> last > local && p < local)
            }
            &&& prev is None ==> c == (if last <= local {
                Class::Stale
            } else {
                Class::Invalid
            })
        }),
        ({
            let c = OkxRule.bridges(first, last, prev, local);
            &&& c == Class::Stale <==> last <= local
            &&& c == Class::Next <==> last > local && prev == Some(local)
            &&& c == Class::Ahead <==> last > local && prev is Some && prev->0 > local
            &&& c == Class::Invalid <==> last > local && (prev is None || prev->0 < local)
        }),
        OkxRule.too_old(first, local) <==> local < first - 1,
{
}

/// A line's own counter goes up by one, and no other.
pub proof fn law_line_counts_its_own(s: Seq<u64>, line: u8)
    requires
        line < s.len() ==> s[line as int] < u64::MAX,
    ensures
        bump(s, line).len() == s.len(),
        forall|i: int|
            0 <= i < s.len() ==> #[trigger] bump(s, line)[i] == s[i] + (if i == line {
                1int
            } else {
                0
            }),
{
}

/// A loss of synchronisation is counted under its own reason alone; the book is empty, a
/// snapshot is asked for at once and the observer is told.
pub proof fn law_loss_is_told_by_its_reason<R, O: BookObserver>(
    p: Progress<R, O::State>,
    reason: ResyncReason,
    now_ms: u64,
)
    requires
        p.s.stats.resync_gap_timeout < u64::MAX,
        p.s.stats.resync_pending_overflow < u64::MAX,
        p.s.stats.resync_invalid_sequence < u64::MAX,
        p.s.stats.resync_crossed < u64::MAX,
        p.s.stats.resync_manual < u64::MAX,
        p.s.stats.snapshots_requested < u64::MAX,
    ensures
        ({
            let q = resync_next::<R, O>(p, reason, now_ms);
            let a = p.s.stats;
            let b = q.s.stats;
            let one = |r: ResyncReason| if r == reason {
                1int
            } else {
                0int
            };
            &&& b.resync_gap_timeout == a.resync_gap_timeout + one(ResyncReason::GapTimeout)
            &&& b.resync_pending_overflow == a.resync_pending_overflow + one(
                ResyncReason::PendingOverflow,
            )
            &&& b.resync_invalid_sequence == a.resync_invalid_sequence + one(
                ResyncReason::InvalidSequence,
            )
            &&& b.resync_crossed == a.resync_crossed + one(ResyncReason::Crossed)
            &&& b.resync_manual == a.resync_manual + one(ResyncReason::Manual)
            &&& b.snapshots_requested == a.snapshots_requested + 1
            &&& b.applied == a.applied && b.stale == a.stale && b.diffs_rx == a.diffs_rx
            &&& q.s.phase == Phase::Syncing && q.s.last == 0 && q.s.held is None
            &&& q.s.book.bids.len() == 0 && q.s.book.asks.len() == 0
            &&& q.s.pending.len() == 0 && q.s.snapshot_req_at == Some(now_ms)
            &&& q.s.epoch == p.s.epoch
            &&& q.s.obs == O::invalidate_next(p.s.obs, p.s.epoch, reason)
            &&& q.st.resync == Some(reason) && q.st.need_snapshot
            &&& q.st.applied == p.st.applied && q.st.went_live == p.st.went_live
        }),
{
}

/// A resync asked for by hand is told as such.
pub proof fn law_forced_resync_is_manual<R: SeqRule, O: BookObserver>(
    s: SyncState<R, O::State>,
    now_ms: u64,
)
    requires
        s.stats.resync_manual < u64::MAX,
    ensures
        ({
            let q = force_resync_next::<R, O>(s, now_ms);
            &&& q.st.resync == Some(ResyncReason::Manual) && q.st.need_snapshot
            &&& q.st.applied == 0 && !q.st.went_live
            &&& q.s.stats.resync_manual == s.stats.resync_manual + 1
            &&& q.s.phase == Phase::Syncing
        }),
{
}

/// An old diff is counted, also for its line, and does nothing else.
pub proof fn law_old_diff_is_counted<R: SeqRule, O: BookObserver>(
    s: SyncState<R, O::State>,
    d: DepthDiff,
    now_ms: u64,
)
    requires
        s.phase == Phase::Live,
        s.rule.chains(d.first_id, d.last_id, d.prev_last_id, s.last) == Class::Stale,
        s.stats.diffs_rx < u64::MAX,
        s.stats.stale < u64::MAX,
    ensures
        ({
            let q = on_diff_next::<R, O>(s, d, now_ms);
            &&& q.s.stats.diffs_rx == s.stats.diffs_rx + 1
            &&& q.s.stats.stale == s.stats.stale + 1
            &&& q.s.stats.stale_by_line == bump(s.stats.stale_by_line, d.rx.line)
            &&& q.s.stats.applied == s.stats.applied && q.s.stats.ahead == s.stats.ahead
            &&& q.s.book == s.book && q.s.last == s.last && q.s.phase == Phase::Live
            &&& q.s.pending == s.pending && q.s.obs == s.obs
            &&& q.st.applied == 0 && q.st.resync is None && !q.st.need_snapshot
                && !q.st.went_live
        }),
{
}

/// The next diff is applied, where it leaves the book live and nothing waits for it: the book
/// goes on to its id and time, and it is counted, also for its line.
pub proof fn law_next_diff_is_applied<R: SeqRule, O: BookObserver>(
    s: SyncState<R, O::State>,
    d: DepthDiff,
    now_ms: u64,
)
    requires
        s.phase == Phase::Live,
        s.rule.chains(d.first_id, d.last_id, d.prev_last_id, s.last) == Class::Next,
        s.pending.len() == 0,
        s.stats.diffs_rx < u64::MAX,
        s.stats.applied < u64::MAX,
        on_diff_next::<R, O>(s, d, now_ms).s.phase == Phase::Live,
    ensures
        ({
            let q = on_diff_next::<R, O>(s, d, now_ms);
            &&& q.s.stats.diffs_rx == s.stats.diffs_rx + 1
            &&& q.s.stats.applied == s.stats.applied + 1
            &&& q.s.stats.applied_by_line == bump(s.stats.applied_by_line, d.rx.line)
            &&& q.s.stats.stale == s.stats.stale
            &&& q.s.last == d.last_id && q.s.last_exch_ts_ms == d.exch_ts_ms
            &&& q.s.phase == Phase::Live && q.s.epoch == s.epoch
            &&& q.st.applied == 1 && q.st.resync is None && !q.st.need_snapshot
                && !q.st.went_live
        }),
{
}

/// An early diff waits for those before it, with the time that it came; one too many loses
/// synchronisation, and one that waits already is old.
pub proof fn law_early_diff_waits<R: SeqRule, O: BookObserver>(
    s: SyncState<R, O::State>,
    d: DepthDiff,
    now_ms: u64,
)
    requires
        s.phase == Phase::Live,
        s.rule.chains(d.first_id, d.last_id, d.prev_last_id, s.last) == Class::Ahead,
        sorted(s.pending),
        s.stats.diffs_rx < u64::MAX,
        s.stats.ahead < u64::MAX,
        s.stats.stale < u64::MAX,
        s.stats.resync_pending_overflow < u64::MAX,
        s.pending.len() < u64::MAX,
    ensures
        ({
            let q = on_diff_next::<R, O>(s, d, now_ms);
            let key = (d.first_id, d.last_id);
            &&& q.s.stats.diffs_rx == s.stats.diffs_rx + 1
            &&& holds(s.pending, key) ==> q.s.stats.stale == s.stats.stale + 1 && q.s.pending
                == s.pending && q.s.stats.ahead == s.stats.ahead && q.st.resync is None
            &&& !holds(s.pending, key) ==> q.s.stats.ahead == s.stats.ahead + 1
                && q.s.stats.max_pending_seen >= s.pending.len() + 1 && q.s.stats.stale
                == s.stats.stale
            &&& !holds(s.pending, key) && s.pending.len() < s.cfg.max_pending ==> {
                &&& find(q.s.pending, key) == Some((d, now_ms))
                &&& q.s.pending.len() == s.pending.len() + 1
                &&& q.s.phase == Phase::Live && q.s.book == s.book && q.s.last == s.last
                &&& q.st.resync is None && !q.st.need_snapshot && q.st.applied == 0
            }
            &&& !holds(s.pending, key) && s.pending.len() >= s.cfg.max_pending ==> {
                &&& q.st.resync == Some(ResyncReason::PendingOverflow) && q.st.need_snapshot
                &&& q.s.phase == Phase::Syncing && q.s.pending.len() == 0
                &&& q.s.stats.resync_pending_overflow == s.stats.resync_pending_overflow + 1
            }
        }),
{
    lemma_put(s.pending, (d.first_id, d.last_id), (d, now_ms));
}

/// An impossible diff is discarded and loses synchronisation.
pub proof fn law_impossible_diff_loses_the_book<R: SeqRule, O: BookObserver>(
    s: SyncState<R, O::State>,
    d: DepthDiff,
    now_ms: u64,
)
    requires
        s.phase == Phase::Live,
        s.rule.chains(d.first_id, d.last_id, d.prev_last_id, s.last) == Class::Invalid,
        s.stats.invalid_dropped < u64::MAX,
        s.stats.resync_invalid_sequence < u64::MAX,
    ensures
        ({
            let q = on_diff_next::<R, O>(s, d, now_ms);
            &&& q.s.stats.invalid_dropped == s.stats.invalid_dropped + 1
            &&& q.s.stats.resync_invalid_sequence == s.stats.resync_invalid_sequence + 1
            &&& q.st.resync == Some(ResyncReason::InvalidSequence) && q.st.need_snapshot
            &&& q.s.phase == Phase::Syncing && q.s.stats.applied == s.stats.applied
        }),
{
}

/// A diff that comes while synchronising is gathered, and the first one asks for a
/// snapshot; one that is there already is old.
pub proof fn law_diffs_are_gathered<R: SeqRule, O: BookObserver>(
    s: SyncState<R, O::State>,
    d: DepthDiff,
    now_ms: u64,
)
    requires
        s.phase == Phase::Syncing,
        s.held is None,
        sorted(s.buffer),
        s.buffer.len() < s.cfg.max_buffer,
        s.stats.diffs_rx < u64::MAX,
        s.stats.stale < u64::MAX,
        s.stats.snapshots_requested < u64::MAX,
    ensures
        ({
            let q = on_diff_next::<R, O>(s, d, now_ms);
            let key = (d.first_id, d.last_id);
            &&& q.s.stats.diffs_rx == s.stats.diffs_rx + 1
            &&& holds(s.buffer, key) ==> q.s.buffer == s.buffer && q.s.stats.stale == s.stats.stale
                + 1
            &&& !holds(s.buffer, key) ==> find(q.s.buffer, key) == Some(d) && q.s.buffer.len()
                == s.buffer.len() + 1 && q.s.stats.stale == s.stats.stale
            &&& forall|k: (u64, u64)| k != key ==> #[trigger] find(q.s.buffer, k) == find(
                s.buffer,
                k,
            )
            &&& s.snapshot_req_at is None ==> q.st.need_snapshot && q.s.snapshot_req_at == Some(
                now_ms,
            ) && q.s.stats.snapshots_requested == s.stats.snapshots_requested + 1
            &&& s.snapshot_req_at is Some ==> !q.st.need_snapshot && q.s.snapshot_req_at
                == s.snapshot_req_at && q.s.stats.snapshots_requested
                == s.stats.snapshots_requested
            &&& q.s.phase == Phase::Syncing && q.st.applied == 0 && q.st.resync is None
        }),
{
    let key = (d.first_id, d.last_id);
    lemma_put(s.buffer, key, d);
}

/// The buffer is cut from its oldest ids, just as many as are too many, and each is counted.
pub proof fn law_buffer_is_cut_to_its_limit<R, S>(s: SyncState<R, S>)
    requires
        s.stats.buffer_dropped + s.buffer.len() <= u64::MAX,
    ensures
        ({
            let n = if s.buffer.len() > s.cfg.max_buffer {
                s.buffer.len() - s.cfg.max_buffer
            } else {
                0
            };
            &&& trimmed(s).buffer == s.buffer.skip(n)
            &&& trimmed(s).stats.buffer_dropped == s.stats.buffer_dropped + n
        }),
    decreases s.buffer.len(),
{
    if s.buffer.len() > s.cfg.max_buffer {
        let r = SyncState {
            buffer: s.buffer.skip(1),
            stats: crate::sync::StatsView {
                buffer_dropped: crate::sync::inc(s.stats.buffer_dropped),
                ..s.stats
            },
            ..s
        };
        law_buffer_is_cut_to_its_limit(r);
        let n = s.buffer.len() - s.cfg.max_buffer;
        assert(s.buffer.skip(1).skip(n - 1) == s.buffer.skip(n));
    } else {
        assert(s.buffer.skip(0) == s.buffer);
    }
}

/// A snapshot that comes to a live book is ignored; one that comes with nothing gathered is
/// held for the diffs to come. Either way it is no longer awaited.
pub proof fn law_snapshot_is_ignored_or_held<R: SeqRule, O: BookObserver>(
    s: SyncState<R, O::State>,
    snap: DepthSnapshot,
    now_ms: u64,
)
    requires
        s.stats.snapshots_rx < u64::MAX,
        s.stats.snapshots_ignored < u64::MAX,
    ensures
        ({
            let q = on_snapshot_next::<R, O>(s, snap, now_ms);
            &&& s.phase == Phase::Live ==> {
                &&& q.s.stats.snapshots_rx == s.stats.snapshots_rx + 1
                &&& q.s.stats.snapshots_ignored == s.stats.snapshots_ignored + 1
                &&& q.s.book == s.book && q.s.held == s.held && q.s.phase == Phase::Live
                &&& q.s.snapshot_req_at is None && !q.st.need_snapshot && !q.st.went_live
            }
            &&& s.phase == Phase::Syncing && s.buffer.len() == 0 ==> {
                &&& q.s.stats.snapshots_rx == s.stats.snapshots_rx + 1
                &&& q.s.stats.snapshots_ignored == s.stats.snapshots_ignored
                &&& q.s.held == Some(snap) && q.s.phase == Phase::Syncing
                &&& q.s.snapshot_req_at is None && !q.st.need_snapshot && !q.st.went_live
            }
        }),
{
}

/// A snapshot older than the first diff gathered cannot be bridged: it is discarded, counted
/// and another is asked for.
pub proof fn law_old_snapshot_is_discarded<R: SeqRule, O: BookObserver>(
    s: SyncState<R, O::State>,
    snap: DepthSnapshot,
    now_ms: u64,
)
    requires
        s.phase == Phase::Syncing,
        s.buffer.len() > 0,
        s.rule.too_old(s.buffer[0].0.0, snap.last_update_id),
        s.stats.snapshots_rx < u64::MAX,
        s.stats.snapshots_unbridgeable < u64::MAX,
        s.stats.snapshots_requested < u64::MAX,
    ensures
        ({
            let q = on_snapshot_next::<R, O>(s, snap, now_ms);
            &&& q.s.stats.snapshots_rx == s.stats.snapshots_rx + 1
            &&& q.s.stats.snapshots_unbridgeable == s.stats.snapshots_unbridgeable + 1
            &&& q.s.stats.snapshots_requested == s.stats.snapshots_requested + 1
            &&& q.s.held is None && q.s.buffer == s.buffer && q.s.phase == Phase::Syncing
            &&& q.s.snapshot_req_at == Some(now_ms) && q.st.need_snapshot && !q.st.went_live
        }),
{
}

/// A bridged snapshot starts the next epoch: the book is what it shows, up to its id, and
/// the observer is told.
pub proof fn law_snapshot_starts_the_next_epoch<R, O: BookObserver>(p: Progress<R, O::State>)
    requires
        p.s.held is Some,
        p.s.epoch < u64::MAX,
    ensures
        ({
            let q = rebuilt::<R, O>(p);
            let snap = p.s.held->0;
            &&& q.s.epoch == p.s.epoch + 1 && q.s.phase == Phase::Live && q.st.went_live
            &&& q.s.last == snap.last_update_id && q.s.held is None
            &&& q.s.book == BookState::of_snapshot(snap)
            &&& q.s.pending.len() == 0 && q.s.buffer == p.s.buffer.skip(1)
            &&& q.s.obs == O::rebuild_next(
                p.s.obs,
                q.s.epoch,
                BookState::of_snapshot(snap),
            )
        }),
{
}

/// The oldest of the diffs that wait is the one that came first.
pub proof fn law_oldest_came_first(pending: Seq<((u64, u64), (DepthDiff, u64))>)
    ensures
        oldest(pending) is None <==> pending.len() == 0,
        oldest(pending) matches Some(t) ==> {
            &&& forall|i: int| 0 <= i < pending.len() ==> t <= (#[trigger] pending[i]).1.1
            &&& exists|i: int| 0 <= i < pending.len() && t == (#[trigger] pending[i]).1.1
        },
    decreases pending.len(),
{
    if pending.len() > 0 {
        let f = pending.drop_last();
        law_oldest_came_first(f);
        assert(forall|i: int| 0 <= i < f.len() ==> f[i] == pending[i]);
        assert(pending[pending.len() - 1] == pending.last());
        if oldest(f) is Some {
            let i = choose|i: int| 0 <= i < f.len() && oldest(f)->0 == (#[trigger] f[i]).1.1;
            assert(pending[i].1.1 == oldest(f)->0);
        }
    }
}

/// As time goes by: a live book that waited long enough for a missing diff is lost, and a
/// snapshot that did not come in its time is asked for again. Nothing else happens.
pub proof fn law_waits_run_out<R: SeqRule, O: BookObserver>(s: SyncState<R, O::State>, now_ms: u64)
    requires
        s.stats.resync_gap_timeout < u64::MAX,
        s.stats.snapshots_requested < u64::MAX,
        s.cfg.gap_timeout_ms > 0,
        s.cfg.snapshot_retry_ms > 0,
    ensures
        ({
            let q = on_tick_next::<R, O>(s, now_ms);
            let gap = s.phase == Phase::Live && oldest(s.pending) is Some && now_ms >= oldest(
                s.pending,
            )->0 + s.cfg.gap_timeout_ms;
            let again = s.phase == Phase::Syncing && s.snapshot_req_at is Some && now_ms
                >= s.snapshot_req_at->0 + s.cfg.snapshot_retry_ms;
            &&& gap ==> {
                &&& q.st.resync == Some(ResyncReason::GapTimeout) && q.st.need_snapshot
                &&& q.s.phase == Phase::Syncing
                &&& q.s.stats.resync_gap_timeout == s.stats.resync_gap_timeout + 1
            }
            &&& again ==> {
                &&& q.st.resync is None && q.st.need_snapshot
                &&& q.s.snapshot_req_at == Some(now_ms) && q.s.phase == Phase::Syncing
                &&& q.s.stats.snapshots_requested == s.stats.snapshots_requested + 1
            }
            &&& !gap && !again ==> {
                &&& q.st.resync is None && !q.st.need_snapshot && q.st.applied == 0
                &&& q.s.phase == s.phase && q.s.book == s.book && q.s.pending == s.pending
                &&& q.s.snapshot_req_at == s.snapshot_req_at && q.s.stats == s.stats
            }
        }),
{
}

/// A diff that leaves the book crossed is counted; by the policy the book is then lost, or
/// goes on.
pub proof fn law_crossed_book_is_counted<R, O: BookObserver>(
    p: Progress<R, O::State>,
    d: DepthDiff,
    now_ms: u64,
)
    requires
        p.s.stats.crossed_seen < u64::MAX,
        p.s.stats.resync_crossed < u64::MAX,
    ensures
        ({
            let book = absorb_diff::<R, O>(p, d).s.book;
            let q = apply_next::<R, O>(p, d, now_ms);
            &&& book.crossed() ==> q.s.stats.crossed_seen == p.s.stats.crossed_seen + 1
            &&& !book.crossed() ==> q.s.stats.crossed_seen == p.s.stats.crossed_seen && q.s.book
                == book && q.s.phase == p.s.phase && q.st.resync == p.st.resync
            &&& book.crossed() && p.s.cfg.cross_policy == CrossPolicy::Resync ==> {
                &&& q.st.resync == Some(ResyncReason::Crossed) && q.st.need_snapshot
                &&& q.s.phase == Phase::Syncing
                &&& q.s.stats.resync_crossed == p.s.stats.resync_crossed + 1
            }
            &&& book.crossed() && p.s.cfg.cross_policy != CrossPolicy::Resync ==> {
                &&& q.s.book == book && q.s.phase == p.s.phase && q.st.resync == p.st.resync
                &&& q.s.stats.resync_crossed == p.s.stats.resync_crossed
            }
        }),
{
}

} // verus!

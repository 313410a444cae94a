//! How batches open and close, and what happens to the trades that wait for them.

use crate::align::{
    batched, close_next, evicted, flows_of, forced_next, front_mark, lemma_close, marked, merged,
    n_ambiguous, n_counted, on_invalidate_next, on_level_next, on_rebuild_next, pruned, ready_next,
    rear_mark, staged, trade_mark, unpruned, AlignState, BatchState, Contamination, FlowSink,
    TradeRec,
};
use crate::book::{ladder_qty, BookState};
use crate::event::{DepthDiff, Side};
use crate::fixed::{Px, Qty};
use crate::ordmap::{find, lemma_del, lemma_put, sorted};
use crate::sums::{lemma_sum_same, sum_upto};
use crate::sync::ResyncReason;
use vstd::prelude::*;

verus! {

/// The time that a diff tells of its changes: that of their match where it has one, and
/// else that of its sending.
pub open spec fn told_time(d: DepthDiff) -> u64 {
    if d.match_ts_ms is Some {
        d.match_ts_ms->0
    } else {
        d.exch_ts_ms
    }
}

/// A diff of a later time than the last batch opens the next one: it starts where the last
/// one ended, ends at the time of the diff and has its changes. The first batch of an epoch
/// makes no claim.
pub proof fn law_later_diff_opens_a_batch<S>(s: AlignState<S>, d: DepthDiff)
    requires
        told_time(d) > s.last_end,
        s.batches.len() > 0 ==> s.batches.last().end == s.last_end,
    ensures
        ({
            let t = batched(s, d);
            let n = s.batches.len() as int;
            &&& t.batches.len() == n + 1
            &&& forall|i: int| 0 <= i < n ==> t.batches[i] == #[trigger] s.batches[i]
            &&& t.batches[n].start == s.last_end && t.batches[n].end == told_time(d)
            &&& t.batches[n].changes == s.staging
            &&& t.batches[n].contaminated == (if s.fresh {
                Some(Contamination::EpochStart)
            } else {
                None
            })
            &&& !t.fresh && t.last_end == told_time(d) && t.staging.len() == 0
            &&& t.stats.ts_regressions == s.stats.ts_regressions
        }),
{
}

/// A diff of the time of the last batch, or of an earlier one, joins it: its interval and
/// what it claims stay, and no batch is opened. An earlier time is counted.
pub proof fn law_other_diff_joins_the_last_batch<S>(s: AlignState<S>, d: DepthDiff)
    requires
        told_time(d) <= s.last_end,
        s.batches.len() > 0,
        s.batches.last().end == s.last_end,
        s.stats.ts_regressions < u64::MAX,
    ensures
        ({
            let t = batched(s, d);
            let n = s.batches.len() as int;
            &&& t.batches.len() == n
            &&& forall|i: int| 0 <= i < n - 1 ==> t.batches[i] == #[trigger] s.batches[i]
            &&& t.batches[n - 1].start == s.batches[n - 1].start && t.batches[n - 1].end
                == s.batches[n - 1].end && t.batches[n - 1].contaminated == s.batches[n
                - 1].contaminated
            &&& t.batches[n - 1].changes == merged(s.batches[n - 1].changes, s.staging)
            &&& t.fresh == s.fresh && t.last_end == s.last_end && t.staging.len() == 0
            &&& t.stats.ts_regressions == s.stats.ts_regressions + (if told_time(d) < s.last_end {
                1int
            } else {
                0
            })
        }),
{
}

/// The depth has reached the latest time told, and the most batches that were open at once
/// are kept in mind.
pub proof fn law_depth_time_never_goes_back<S>(s: AlignState<S>, d: DepthDiff)
    requires
        s.batches.len() < u64::MAX,
    ensures
        ({
            let t = batched(s, d);
            &&& t.depth_wm >= s.depth_wm && t.depth_wm >= told_time(d) && t.depth_wm >= s.last_end
            &&& t.depth_wm == s.depth_wm || t.depth_wm == told_time(d) || t.depth_wm == s.last_end
            &&& t.stats.max_open_batches_seen >= t.batches.len()
            &&& t.stats.max_open_batches_seen == s.stats.max_open_batches_seen
                || t.stats.max_open_batches_seen == t.batches.len()
        }),
{
}

/// A level that changes again keeps what it had first and takes what it has now; no other
/// level is touched.
pub proof fn law_change_keeps_its_first_quantity(
    changes: Seq<((Side, Px), (Qty, Qty))>,
    key: (Side, Px),
    prev: Qty,
    new: Qty,
)
    requires
        sorted(changes),
    ensures
        ({
            let t = staged(changes, key, prev, new);
            &&& sorted(t)
            &&& find(changes, key) matches Some(e) ==> find(t, key) == Some((e.0, new))
            &&& find(changes, key) is None ==> find(t, key) == Some((prev, new))
            &&& forall|k: (Side, Px)| k != key ==> #[trigger] find(t, k) == find(changes, k)
        }),
{
    let v = match find(changes, key) {
        Some(e) => (e.0, new),
        None => (prev, new),
    };
    lemma_put(changes, key, v);
}

/// Two diffs of one time are one: a level goes from what it had before the first to what it
/// has after the last.
pub proof fn law_changes_of_one_time_are_one(
    changes: Seq<((Side, Px), (Qty, Qty))>,
    more: Seq<((Side, Px), (Qty, Qty))>,
    i: int,
)
    requires
        sorted(changes),
        sorted(more),
        0 <= i < more.len(),
    ensures
        ({
            let t = merged(changes, more);
            let (key, (p, n)) = more[i];
            &&& sorted(t)
            &&& find(changes, key) matches Some(e) ==> find(t, key) == Some((e.0, n))
            &&& find(changes, key) is None ==> find(t, key) == Some((p, n))
        }),
    decreases more.len(),
{
    let f = more.drop_last();
    assert(sorted(f));
    let (key, (p, n)) = more[i];
    let (last, (lp, ln)) = more.last();
    lemma_merged_sorted(changes, f);
    law_change_keeps_its_first_quantity(merged(changes, f), last, lp, ln);
    if i < f.len() {
        law_changes_of_one_time_are_one(changes, f, i);
        assert(f[i] == more[i]);
        assert(crate::ordmap::key_lt(more[i].0, more[more.len() - 1].0));
        assert(key != last);
    } else {
        lemma_merged_elsewhere(changes, f, last);
    }
}

proof fn lemma_merged_sorted(
    changes: Seq<((Side, Px), (Qty, Qty))>,
    more: Seq<((Side, Px), (Qty, Qty))>,
)
    requires
        sorted(changes),
    ensures
        sorted(merged(changes, more)),
    decreases more.len(),
{
    if more.len() > 0 {
        lemma_merged_sorted(changes, more.drop_last());
        let (key, (p, n)) = more.last();
        law_change_keeps_its_first_quantity(merged(changes, more.drop_last()), key, p, n);
    }
}

/// A level that the second diff does not name keeps its change.
proof fn lemma_merged_elsewhere(
    changes: Seq<((Side, Px), (Qty, Qty))>,
    more: Seq<((Side, Px), (Qty, Qty))>,
    k: (Side, Px),
)
    requires
        sorted(changes),
        forall|i: int| 0 <= i < more.len() ==> (#[trigger] more[i]).0 != k,
    ensures
        find(merged(changes, more), k) == find(changes, k),
    decreases more.len(),
{
    if more.len() > 0 {
        let f = more.drop_last();
        assert(forall|i: int| 0 <= i < f.len() ==> f[i] == more[i]);
        lemma_merged_elsewhere(changes, f, k);
        lemma_merged_sorted(changes, f);
        let (key, (p, n)) = more.last();
        assert(more[more.len() - 1].0 != k);
        law_change_keeps_its_first_quantity(merged(changes, f), key, p, n);
    }
}

/// A line's mark is the latest time that it delivered; no other line's changes.
pub proof fn law_mark_is_the_latest(lines: Seq<(u64, u64)>, line: u8, ts: u64)
    requires
        sorted(lines),
    ensures
        ({
            let t = marked(lines, line, ts);
            &&& sorted(t)
            &&& find(t, line as u64) matches Some(m) && m >= ts
            &&& find(lines, line as u64) matches Some(m) ==> find(t, line as u64) == Some(
                if m >= ts {
                    m
                } else {
                    ts
                },
            )
            &&& find(lines, line as u64) is None ==> find(t, line as u64) == Some(ts)
            &&& forall|k: u64| k != line ==> #[trigger] find(t, k) == find(lines, k)
        }),
{
    lemma_put(lines, line as u64, ts);
}

proof fn lemma_front(lines: Seq<(u64, u64)>)
    ensures
        forall|i: int| 0 <= i < lines.len() ==> (#[trigger] lines[i]).1 <= front_mark(lines),
        lines.len() > 0 ==> exists|i: int|
            0 <= i < lines.len() && (#[trigger] lines[i]).1 == front_mark(lines),
        lines.len() == 0 ==> front_mark(lines) == 0,
    decreases lines.len(),
{
    if lines.len() > 0 {
        let f = lines.drop_last();
        lemma_front(f);
        assert(forall|i: int| 0 <= i < f.len() ==> f[i] == lines[i]);
        assert(lines[lines.len() - 1] == lines.last());
        if f.len() > 0 {
            let i = choose|i: int| 0 <= i < f.len() && (#[trigger] f[i]).1 == front_mark(f);
            assert(lines[i].1 == front_mark(f));
        }
    }
}

proof fn lemma_rear(lines: Seq<(u64, u64)>, front: u64)
    ensures
        rear_mark(lines, front) <= front,
        forall|i: int|
            0 <= i < lines.len() && (#[trigger] lines[i]).1 + 1_000 >= front ==> rear_mark(
                lines,
                front,
            ) <= lines[i].1,
        rear_mark(lines, front) == front || exists|i: int|
            0 <= i < lines.len() && (#[trigger] lines[i]).1 == rear_mark(lines, front)
                && lines[i].1 + 1_000 >= front,
    decreases lines.len(),
{
    if lines.len() > 0 {
        let f = lines.drop_last();
        lemma_rear(f, front);
        assert(forall|i: int| 0 <= i < f.len() ==> f[i] == lines[i]);
        assert(lines[lines.len() - 1] == lines.last());
        if rear_mark(f, front) != front {
            let i = choose|i: int|
                0 <= i < f.len() && (#[trigger] f[i]).1 == rear_mark(f, front) && f[i].1 + 1_000
                    >= front;
            assert(lines[i].1 == rear_mark(f, front));
        }
    }
}

/// Trades have come up to the mark of the slowest line among those that are at most one
/// second behind the foremost; a line further behind is not waited for.
pub proof fn law_trades_have_come_up_to_the_slowest(lines: Seq<(u64, u64)>)
    ensures
        lines.len() == 0 ==> trade_mark(lines) == 0,
        lines.len() > 0 ==> exists|i: int|
            0 <= i < lines.len() && (#[trigger] lines[i]).1 == trade_mark(lines),
        forall|i: int, j: int|
            #![trigger lines[i], lines[j]]
            0 <= i < lines.len() && 0 <= j < lines.len() ==> lines[j].1 <= trade_mark(lines)
                + 1_000 && (lines[i].1 >= trade_mark(lines) || exists|k: int|
                0 <= k < lines.len() && lines[i].1 + 1_000 < (#[trigger] lines[k]).1),
{
    let front = front_mark(lines);
    lemma_front(lines);
    lemma_rear(lines, front);
    if lines.len() > 0 {
        let f = choose|i: int| 0 <= i < lines.len() && (#[trigger] lines[i]).1 == front;
        assert(lines[f].1 == front);
        if trade_mark(lines) != front {
            let i = choose|i: int|
                0 <= i < lines.len() && (#[trigger] lines[i]).1 == rear_mark(lines, front)
                    && lines[i].1 + 1_000 >= front;
            assert(lines[i].1 == trade_mark(lines));
        }
    }
}

/// The oldest batch may close: its trades have come on every line waited for, or the depth
/// went on without them.
pub open spec fn may_close<S>(s: AlignState<S>) -> bool {
    let end = s.batches[0].end;
    let slack = s.cfg.boundary_slack_ms;
    trade_mark(s.lines) > end + 2 * slack || s.depth_wm >= end + slack + s.cfg.watermark_ms
}

/// Batches close while the oldest may, and another is open after it; then no more do. They
/// close in order, from the oldest, and each is counted by what let it close.
pub proof fn law_batches_close_when_they_may<K: FlowSink>(s: AlignState<K::State>)
    requires
        s.stats.closed_by_trades + s.stats.closed_by_timeout + s.batches.len() <= u64::MAX,
    ensures
        ({
            let t = ready_next::<K>(s);
            let n = s.batches.len() - t.batches.len();
            &&& 0 <= n && t.batches == s.batches.skip(n)
            &&& s.batches.len() > 0 ==> t.batches.len() > 0
            &&& t.batches.len() >= 2 ==> !may_close(t)
            &&& s.batches.len() < 2 || !may_close(s) ==> t == s
            &&& t.stats.closed_by_trades + t.stats.closed_by_timeout == s.stats.closed_by_trades
                + s.stats.closed_by_timeout + n
            &&& t.stats.closed_forced == s.stats.closed_forced
            &&& t.lines == s.lines && t.depth_wm == s.depth_wm && t.cfg == s.cfg
        }),
    decreases s.batches.len(),
{
    if s.batches.len() >= 2 && may_close(s) {
        let by_trades = trade_mark(s.lines) > s.batches[0].end + 2 * s.cfg.boundary_slack_ms;
        let c = AlignState {
            stats: if by_trades {
                crate::align::AlignerStats {
                    closed_by_trades: crate::sync::inc(s.stats.closed_by_trades),
                    ..s.stats
                }
            } else {
                crate::align::AlignerStats {
                    closed_by_timeout: crate::sync::inc(s.stats.closed_by_timeout),
                    ..s.stats
                }
            },
            ..s
        };
        let r = close_next::<K>(c);
        lemma_close::<K>(c);
        lemma_closing_counts::<K>(c);
        assert(ready_next::<K>(s) == ready_next::<K>(r));
        law_batches_close_when_they_may::<K>(r);
        let t = ready_next::<K>(r);
        let n = r.batches.len() - t.batches.len();
        assert(s.batches.skip(1).skip(n) == s.batches.skip(n + 1));
    } else {
        assert(s.batches.skip(0) == s.batches);
    }
}

/// Closing a batch is not counted by itself.
proof fn lemma_closing_counts<K: FlowSink>(s: AlignState<K::State>)
    ensures
        ({
            let t = close_next::<K>(s);
            &&& t.stats.closed_by_trades == s.stats.closed_by_trades
            &&& t.stats.closed_by_timeout == s.stats.closed_by_timeout
            &&& t.stats.closed_forced == s.stats.closed_forced
        }),
{
    if s.batches.len() > 0 {
        lemma_pruned_counts(crate::align::unpruned::<K>(s));
    }
}

proof fn lemma_pruned_counts<S>(s: AlignState<S>)
    ensures
        ({
            let t = pruned(s);
            &&& t.stats.closed_by_trades == s.stats.closed_by_trades
            &&& t.stats.closed_by_timeout == s.stats.closed_by_timeout
            &&& t.stats.closed_forced == s.stats.closed_forced
        }),
    decreases s.trades.len(),
{
    if s.trades.len() > 0 && s.trades[0].0.0 + s.cfg.boundary_slack_ms <= s.finalized_until {
        let rest = AlignState { trades: s.trades.skip(1), ..s };
        if s.trades[0].1.counted {
            lemma_pruned_counts(rest);
        } else {
            lemma_pruned_counts(
                AlignState {
                    uncounted: crate::num::clamp_u64(s.uncounted - 1) as u64,
                    stats: crate::align::AlignerStats {
                        late: crate::sync::inc(s.stats.late),
                        ..s.stats
                    },
                    ..rest
                },
            );
        }
    }
}

/// Where too many batches are open the oldest are closed, just as many as are too many, and
/// counted as forced.
pub proof fn law_too_many_batches_close<K: FlowSink>(s: AlignState<K::State>)
    requires
        s.stats.closed_forced + s.batches.len() <= u64::MAX,
    ensures
        ({
            let t = forced_next::<K>(s);
            let n = if s.batches.len() > s.cfg.max_open_batches {
                s.batches.len() - s.cfg.max_open_batches
            } else {
                0
            };
            &&& t.batches == s.batches.skip(n)
            &&& t.batches.len() <= s.cfg.max_open_batches
            &&& t.stats.closed_forced == s.stats.closed_forced + n
            &&& t.stats.closed_by_trades == s.stats.closed_by_trades
            &&& t.stats.closed_by_timeout == s.stats.closed_by_timeout
        }),
    decreases s.batches.len(),
{
    if s.batches.len() > s.cfg.max_open_batches {
        let c = AlignState {
            stats: crate::align::AlignerStats {
                closed_forced: crate::sync::inc(s.stats.closed_forced),
                ..s.stats
            },
            ..s
        };
        let r = close_next::<K>(c);
        lemma_close::<K>(c);
        lemma_closing_counts::<K>(c);
        assert(forced_next::<K>(s) == forced_next::<K>(r));
        law_too_many_batches_close::<K>(r);
        let n = s.batches.len() - s.cfg.max_open_batches;
        assert(s.batches.skip(1).skip(n - 1) == s.batches.skip(n));
    } else {
        assert(s.batches.skip(0) == s.batches);
    }
}

/// How many of the first trades no batch counted.
pub open spec fn open_of(trades: Seq<((u64, u64), TradeRec)>, n: int) -> int
    decreases n,
{
    if n <= 0 {
        0
    } else {
        open_of(trades, n - 1) + if trades[n - 1].1.counted {
            0int
        } else {
            1
        }
    }
}

proof fn lemma_open_skipped(trades: Seq<((u64, u64), TradeRec)>, n: int)
    requires
        0 < n <= trades.len(),
    ensures
        open_of(trades, n) == open_of(trades.skip(1), n - 1) + (if trades[0].1.counted {
            0int
        } else {
            1
        }),
        open_of(trades.skip(1), n - 1) >= 0,
    decreases n,
{
    if n > 1 {
        lemma_open_skipped(trades, n - 1);
        assert(trades.skip(1)[n - 2] == trades[n - 1]);
    } else {
        assert(open_of(trades, 0) == 0);
    }
}

/// Where too many trades wait the oldest leave, just as many as are too many. Each that no
/// batch had counted is told as an overflow, and where there is one every open batch makes
/// no claim; what a batch said already stays.
pub proof fn law_too_many_trades_leave<S>(s: AlignState<S>)
    requires
        s.stats.overflow + s.trades.len() <= u64::MAX,
    ensures
        ({
            let t = evicted(s);
            let n = if s.trades.len() > s.cfg.max_trades {
                s.trades.len() - s.cfg.max_trades
            } else {
                0
            };
            &&& t.trades == s.trades.skip(n)
            &&& t.stats.overflow == s.stats.overflow + open_of(s.trades, n)
            &&& open_of(s.trades, n) >= 0
            &&& open_of(s.trades, n) <= s.uncounted ==> t.uncounted == s.uncounted - open_of(
                s.trades,
                n,
            )
            &&& t.batches.len() == s.batches.len()
            &&& forall|i: int|
                0 <= i < s.batches.len() ==> {
                    let b = #[trigger] t.batches[i];
                    &&& b.start == s.batches[i].start && b.end == s.batches[i].end && b.changes
                        == s.batches[i].changes
                    &&& s.batches[i].contaminated is Some ==> b.contaminated
                        == s.batches[i].contaminated
                    &&& s.batches[i].contaminated is None && open_of(s.trades, n) > 0
                        ==> b.contaminated == Some(Contamination::TradeOverflow)
                    &&& s.batches[i].contaminated is None && open_of(s.trades, n) == 0
                        ==> b.contaminated is None
                }
        }),
    decreases s.trades.len(),
{
    if s.trades.len() > s.cfg.max_trades {
        let n = s.trades.len() - s.cfg.max_trades;
        let rest = AlignState { trades: s.trades.skip(1), ..s };
        lemma_open_skipped(s.trades, n);
        let r = if s.trades[0].1.counted {
            rest
        } else {
            AlignState {
                uncounted: crate::num::clamp_u64(s.uncounted - 1) as u64,
                batches: crate::align::overflowed(s.batches),
                stats: crate::align::AlignerStats {
                    overflow: crate::sync::inc(s.stats.overflow),
                    ..s.stats
                },
                ..rest
            }
        };
        assert(evicted(s) == evicted(r));
        law_too_many_trades_leave(r);
        assert(s.trades.skip(1).skip(n - 1) == s.trades.skip(n));
    } else {
        assert(s.trades.skip(0) == s.trades);
    }
}

/// The trades that no open batch can use leave from the front: those whose time, with the
/// slack, is final. Each that no batch had counted came late.
pub proof fn law_final_trades_leave<S>(s: AlignState<S>) -> (n: int)
    requires
        s.stats.late + s.trades.len() <= u64::MAX,
    ensures
        0 <= n <= s.trades.len(),
        pruned(s).trades == s.trades.skip(n),
        forall|i: int|
            0 <= i < n ==> (#[trigger] s.trades[i]).0.0 + s.cfg.boundary_slack_ms
                <= s.finalized_until,
        n < s.trades.len() ==> s.trades[n].0.0 + s.cfg.boundary_slack_ms > s.finalized_until,
        pruned(s).stats.late == s.stats.late + open_of(s.trades, n),
        open_of(s.trades, n) <= s.uncounted ==> pruned(s).uncounted == s.uncounted - open_of(
            s.trades,
            n,
        ),
        pruned(s).batches == s.batches,
    decreases s.trades.len(),
{
    if s.trades.len() > 0 && s.trades[0].0.0 + s.cfg.boundary_slack_ms <= s.finalized_until {
        let rest = AlignState { trades: s.trades.skip(1), ..s };
        let r = if s.trades[0].1.counted {
            rest
        } else {
            AlignState {
                uncounted: crate::num::clamp_u64(s.uncounted - 1) as u64,
                stats: crate::align::AlignerStats {
                    late: crate::sync::inc(s.stats.late),
                    ..s.stats
                },
                ..rest
            }
        };
        let m = law_final_trades_leave(r);
        lemma_open_skipped(s.trades, m + 1);
        assert(s.trades.skip(1).skip(m) == s.trades.skip(m + 1));
        assert forall|i: int| 0 <= i < m + 1 implies (#[trigger] s.trades[i]).0.0
            + s.cfg.boundary_slack_ms <= s.finalized_until by {
            if i > 0 {
                assert(s.trades[i] == s.trades.skip(1)[i - 1]);
            }
        }
        if m + 1 < s.trades.len() {
            assert(s.trades[m + 1] == s.trades.skip(1)[m]);
        }
        m + 1
    } else {
        assert(s.trades.skip(0) == s.trades);
        0
    }
}

/// Trades near the ends of a batch, within the slack, that it would count.
pub open spec fn near_the_ends(
    trades: Seq<((u64, u64), TradeRec)>,
    b: BatchState,
    d: u64,
) -> spec_fn(int) -> int {
    |i: int|
        if b.start < trades[i].0.0 <= b.end && !trades[i].1.counted && (trades[i].0.0 <= b.start + d
            || trades[i].0.0 > b.end - d) {
            1int
        } else {
            0int
        }
}

proof fn lemma_ambiguous(trades: Seq<((u64, u64), TradeRec)>, b: BatchState, d: u64)
    ensures
        n_ambiguous(trades, b, d) == sum_upto(trades.len() as int, near_the_ends(trades, b, d)),
        n_ambiguous(trades, b, d) <= n_counted(trades, b, d) <= trades.len(),
    decreases trades.len(),
{
    if trades.len() > 0 {
        let u = trades.drop_last();
        lemma_ambiguous(u, b, d);
        let f = near_the_ends(trades, b, d);
        let g = near_the_ends(u, b, d);
        assert forall|i: int| 0 <= i < u.len() implies f(i) == #[trigger] g(i) by {
            assert(u[i] == trades[i]);
        }
        lemma_sum_same(u.len() as int, f, g);
        assert(trades.last() == trades[trades.len() - 1]);
    }
}

/// A batch that closes is counted as clean or not, and so are its trades; those near its
/// ends, within the slack, may be of a neighbour.
pub proof fn law_closing_is_counted<K: FlowSink>(s: AlignState<K::State>)
    requires
        s.batches.len() > 0,
        s.trades.len() <= 0x1000_0000_0000_0000,
        s.stats.aligned <= 0x1000_0000_0000_0000,
        s.stats.contaminated <= 0x1000_0000_0000_0000,
        s.stats.ambiguous <= 0x1000_0000_0000_0000,
        s.stats.batches_clean < u64::MAX,
        s.stats.batches_contaminated < u64::MAX,
        s.stats.flows_emitted <= 0x1000_0000_0000_0000,
    ensures
        ({
            let b = s.batches[0];
            let d = s.cfg.boundary_slack_ms;
            let t = unpruned::<K>(s);
            let flows = flows_of(AlignState { batches: s.batches.skip(1), ..s }, b);
            let n = n_counted(s.trades, b, d);
            &&& b.contaminated is None ==> {
                &&& t.stats.aligned == s.stats.aligned + n
                &&& t.stats.contaminated == s.stats.contaminated
                &&& t.stats.batches_clean == s.stats.batches_clean + 1
                &&& t.stats.batches_contaminated == s.stats.batches_contaminated
            }
            &&& b.contaminated is Some ==> {
                &&& t.stats.contaminated == s.stats.contaminated + n
                &&& t.stats.aligned == s.stats.aligned
                &&& t.stats.batches_contaminated == s.stats.batches_contaminated + 1
                &&& t.stats.batches_clean == s.stats.batches_clean
            }
            &&& t.stats.ambiguous == s.stats.ambiguous + sum_upto(
                s.trades.len() as int,
                near_the_ends(s.trades, b, d),
            )
            &&& flows.len() <= 0x1000_0000_0000_0000 ==> t.stats.flows_emitted
                == s.stats.flows_emitted + flows.len()
            &&& n <= s.uncounted ==> t.uncounted == s.uncounted - n
            &&& t.finalized_until == b.end
            &&& t.trades.len() == s.trades.len()
            &&& forall|i: int|
                0 <= i < s.trades.len() ==> {
                    let x = #[trigger] t.trades[i];
                    &&& x.0 == s.trades[i].0
                    &&& x.1.counted <==> s.trades[i].1.counted || b.start < x.0.0 <= b.end
                    &&& x.1.key == s.trades[i].1.key
                }
        }),
{
    lemma_ambiguous(s.trades, s.batches[0], s.cfg.boundary_slack_ms);
}

/// Where synchronisation is lost, every open batch is told as one without claims and every
/// trade that waited as lost.
pub proof fn law_loss_is_counted<K: FlowSink>(
    s: AlignState<K::State>,
    epoch: u64,
    reason: ResyncReason,
)
    requires
        s.stats.batches_contaminated + s.batches.len() <= u64::MAX,
        s.stats.invalidated + s.uncounted <= u64::MAX,
    ensures
        ({
            let t = on_invalidate_next::<K>(s, epoch, reason);
            &&& t.stats.batches_contaminated == s.stats.batches_contaminated + s.batches.len()
            &&& t.stats.invalidated == s.stats.invalidated + s.uncounted
            &&& t.stats.aligned == s.stats.aligned && t.stats.contaminated == s.stats.contaminated
            &&& t.uncounted == 0 && t.trades.len() == 0 && t.batches.len() == 0 && !t.live
            &&& t.sink == K::invalidate_next(s.sink, epoch, reason)
        }),
{
}

/// A rebuilt book starts its epoch afresh: the mirror is the book, no batch is open and none
/// is final.
pub proof fn law_rebuild_starts_afresh<K: FlowSink>(
    s: AlignState<K::State>,
    epoch: u64,
    book: BookState,
)
    ensures
        ({
            let t = on_rebuild_next::<K>(s, epoch, book);
            &&& t.live && t.fresh && t.epoch == epoch
            &&& t.bids == book.bids && t.asks == book.asks
            &&& t.batches.len() == 0 && t.staging.len() == 0
            &&& t.last_end == 0 && t.finalized_until == 0
            &&& t.trades == s.trades && t.uncounted == s.uncounted && t.stats == s.stats
            &&& t.sink == K::rebuild_next(s.sink, epoch, book)
        }),
{
}

/// A change of a level reaches the mirror's own side and the diff in progress, and one that
/// does not start from what the mirror has is told.
pub proof fn law_level_reaches_the_mirror<S>(
    s: AlignState<S>,
    side: Side,
    px: Px,
    prev: Qty,
    new: Qty,
)
    requires
        s.stats.mirror_mismatch < u64::MAX,
        sorted(s.bids),
        sorted(s.asks),
    ensures
        ({
            let t = on_level_next(s, side, px, prev, new);
            let had = if side == Side::Bid {
                ladder_qty(s.bids, px)
            } else {
                ladder_qty(s.asks, px)
            };
            &&& side == Side::Bid ==> t.asks == s.asks && ladder_qty(t.bids, px) == new
            &&& side == Side::Ask ==> t.bids == s.bids && ladder_qty(t.asks, px) == new
            &&& t.staging == staged(s.staging, (side, px), prev, new)
            &&& t.stats.mirror_mismatch == s.stats.mirror_mismatch + (if had == prev {
                0int
            } else {
                1
            })
            &&& t.batches == s.batches && t.trades == s.trades
        }),
{
    lemma_put(s.bids, px, new);
    lemma_put(s.asks, px, new);
    lemma_del(s.bids, px);
    lemma_del(s.asks, px);
}

} // verus!

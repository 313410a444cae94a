//! How batches chain: in time, in quantities, and with the book behind them.

use crate::align::{
    align_start, all_keys, batched, by_timeout, by_trades, close_next, evicted, flows_of,
    forced_next, front_mark, lemma_close, lemma_pruned, marked, merged, nominal, on_invalidate_next,
    on_level_next, on_rebuild_next, on_trade_next, overflowed, possible, pruned, quantity_before,
    ready_next, rear_mark, rec_of, staged, sums, unpruned, AlignState, Aligner, AlignerConfig,
    AlignerStats, BatchState, Contamination, FlowSink, LINE_LAG_MS,
};
use crate::book::{ladder_qty, ladder_set, BookState};
use crate::event::{AggTrade, DepthDiff, Level, Side};
use crate::fixed::{Px, Qty};
use crate::flow_laws::{
    flow_run, flow_take, law_executed_exact, nonnegative, total, FlowInput,
};
use crate::num::clamp_u64;
use crate::arbitration::lemma_set_find;
use crate::ordmap::{find, holds, lemma_drop_last, lemma_put, put, rank, sorted};
use crate::sync::{inc, levels_next, ResyncReason};
use vstd::prelude::*;

verus! {

/// The mirror, the diff in progress and the epoch are the same in both.
pub open spec fn same_mirror<S>(s: AlignState<S>, t: AlignState<S>) -> bool {
    &&& t.bids == s.bids
    &&& t.asks == s.asks
    &&& t.staging == s.staging
    &&& t.live == s.live
    &&& t.epoch == s.epoch
    &&& t.fresh == s.fresh
    &&& t.cfg == s.cfg
    &&& t.last_end == s.last_end
    &&& t.stats.mirror_mismatch == s.stats.mirror_mismatch
}

proof fn lemma_close_mirror<K: FlowSink>(s: AlignState<K::State>)
    ensures
        same_mirror(s, close_next::<K>(s)),
{
    lemma_close::<K>(s);
    if s.batches.len() > 0 {
        lemma_pruned(unpruned::<K>(s));
    }
}

/// Consecutive batches share their boundary, the oldest starts where the last
/// closed one ended, and every counted trade lies in a closed batch.
pub open spec fn ordered<S>(s: AlignState<S>) -> bool {
    &&& forall|i: int|
        1 <= i < s.batches.len() ==> (#[trigger] s.batches[i]).start == s.batches[i - 1].end
    &&& forall|i: int| 0 <= i < s.batches.len() ==> (#[trigger] s.batches[i]).start
        <= s.batches[i].end
    &&& s.batches.len() > 0 ==> s.batches[0].start == s.finalized_until && s.last_end
        == s.batches.last().end
    &&& s.live && s.batches.len() == 0 ==> s.last_end == s.finalized_until
    &&& forall|i: int|
        0 <= i < s.trades.len() ==> if (#[trigger] s.trades[i]).1.counted {
            s.trades[i].0.0 <= s.finalized_until
        } else {
            s.trades[i].0.0 > s.finalized_until || s.trades[i].0.0 == 0
        }
    &&& !s.live ==> s.trades.len() == 0 && s.batches.len() == 0
}

proof fn lemma_pruned_ordered<S>(s: AlignState<S>)
    requires
        ordered(s),
    ensures
        ordered(pruned(s)),
        (forall|i: int| 0 <= i < s.trades.len() ==> (#[trigger] s.trades[i]).0.0 > 0) ==> pruned(
            s,
        ).stats.late == s.stats.late,
    decreases s.trades.len(),
{
    if s.trades.len() > 0 && s.trades[0].0.0 + s.cfg.boundary_slack_ms <= s.finalized_until {
        let rest = AlignState { trades: s.trades.skip(1), ..s };
        assert forall|i: int| 0 <= i < rest.trades.len() implies if (
        #[trigger] rest.trades[i]).1.counted {
            rest.trades[i].0.0 <= rest.finalized_until
        } else {
            rest.trades[i].0.0 > rest.finalized_until || rest.trades[i].0.0 == 0
        } by {
            assert(rest.trades[i] == s.trades[i + 1]);
        }
        if forall|i: int| 0 <= i < s.trades.len() ==> (#[trigger] s.trades[i]).0.0 > 0 {
            assert forall|i: int| 0 <= i < rest.trades.len() implies (
            #[trigger] rest.trades[i]).0.0 > 0 by {
                assert(rest.trades[i] == s.trades[i + 1]);
            }
        }
        if s.trades[0].1.counted {
            lemma_pruned_ordered(rest);
        } else {
            lemma_pruned_ordered(
                AlignState {
                    uncounted: clamp_u64(s.uncounted - 1) as u64,
                    stats: AlignerStats { late: inc(s.stats.late), ..s.stats },
                    ..rest
                },
            );
        }
    }
}

proof fn lemma_close_ordered<K: FlowSink>(s: AlignState<K::State>)
    requires
        ordered(s),
    ensures
        ordered(close_next::<K>(s)),
{
    if s.batches.len() > 0 {
        let u = unpruned::<K>(s);
        let b = s.batches[0];
        let d = s.cfg.boundary_slack_ms;
        assert forall|i: int| 1 <= i < u.batches.len() implies (#[trigger] u.batches[i]).start
            == u.batches[i - 1].end by {
            assert(u.batches[i] == s.batches[i + 1]);
            assert(u.batches[i - 1] == s.batches[i]);
        }
        assert forall|i: int| 0 <= i < u.batches.len() implies (#[trigger] u.batches[i]).start
            <= u.batches[i].end by {
            assert(u.batches[i] == s.batches[i + 1]);
        }
        if u.batches.len() > 0 {
            assert(u.batches[0] == s.batches[1]);
        }
        assert forall|i: int| 0 <= i < u.trades.len() implies if (
        #[trigger] u.trades[i]).1.counted {
            u.trades[i].0.0 <= u.finalized_until
        } else {
            u.trades[i].0.0 > u.finalized_until || u.trades[i].0.0 == 0
        } by {
            let ts = s.trades[i].0.0;
            assert(s.trades[i].1.counted ==> ts <= s.finalized_until);
            assert(nominal(b, ts) ==> possible(b, d, ts));
        }
        lemma_pruned_ordered(u);
    }
}

/// A trade that came before its batch closed is not late: closing a batch makes
/// no trade late, as long as no trade has time zero.
pub proof fn law_closing_makes_no_trade_late<K: FlowSink>(s: AlignState<K::State>)
    requires
        ordered(s),
        forall|i: int| 0 <= i < s.trades.len() ==> (#[trigger] s.trades[i]).0.0 > 0,
    ensures
        close_next::<K>(s).stats.late == s.stats.late,
{
    if s.batches.len() > 0 {
        let u = unpruned::<K>(s);
        let b = s.batches[0];
        let d = s.cfg.boundary_slack_ms;
        assert forall|i: int| 0 <= i < u.trades.len() implies (#[trigger] u.trades[i]).0.0 > 0 by {
            assert(u.trades[i].0 == s.trades[i].0);
        }
        lemma_close_ordered::<K>(s);
        assert(ordered(u)) by {
            assert forall|i: int| 1 <= i < u.batches.len() implies (#[trigger] u.batches[i]).start
                == u.batches[i - 1].end by {
                assert(u.batches[i] == s.batches[i + 1]);
                assert(u.batches[i - 1] == s.batches[i]);
            }
            assert forall|i: int| 0 <= i < u.batches.len() implies (#[trigger] u.batches[i]).start
                <= u.batches[i].end by {
                assert(u.batches[i] == s.batches[i + 1]);
            }
            if u.batches.len() > 0 {
                assert(u.batches[0] == s.batches[1]);
            }
            assert forall|i: int| 0 <= i < u.trades.len() implies if (
            #[trigger] u.trades[i]).1.counted {
                u.trades[i].0.0 <= u.finalized_until
            } else {
                u.trades[i].0.0 > u.finalized_until || u.trades[i].0.0 == 0
            } by {
                let ts = s.trades[i].0.0;
                assert(s.trades[i].1.counted ==> ts <= s.finalized_until);
                assert(nominal(b, ts) ==> possible(b, d, ts));
            }
        }
        lemma_pruned_ordered(u);
    }
}

/// The trades that the oldest batch is about to count are not counted yet.
pub proof fn law_batch_counts_each_trade_once<S>(s: AlignState<S>)
    requires
        ordered(s),
        s.batches.len() > 0,
    ensures
        forall|i: int|
            0 <= i < s.trades.len() && nominal(s.batches[0], (#[trigger] s.trades[i]).0.0)
                ==> !s.trades[i].1.counted,
{
}

/// The open batches and the diff in progress, as one more batch.
pub open spec fn extended<S>(s: AlignState<S>) -> Seq<BatchState> {
    s.batches.push(
        BatchState { start: s.last_end, end: s.last_end, contaminated: None, changes: s.staging },
    )
}

/// The quantity that a level has at the end of each batch is the one it has before
/// the next batch that changes it, or on the mirror if there is none.
pub open spec fn linked<S>(s: AlignState<S>) -> bool {
    &&& forall|i: int| 0 <= i < s.batches.len() ==> sorted((#[trigger] s.batches[i]).changes)
    &&& sorted(s.staging)
    &&& sorted(s.bids)
    &&& sorted(s.asks)
    &&& forall|i: int, key: (Side, Px)|
        #![trigger find(extended(s)[i].changes, key)]
        0 <= i <= s.batches.len() ==> (find(extended(s)[i].changes, key) matches Some(qq) ==> qq.1
            == quantity_before(extended(s), i + 1, s.bids, s.asks, key))
}

proof fn lemma_before_skip(
    batches: Seq<BatchState>,
    i: int,
    bids: Seq<(Px, Qty)>,
    asks: Seq<(Px, Qty)>,
    key: (Side, Px),
)
    requires
        0 <= i,
        batches.len() > 0,
    ensures
        quantity_before(batches.skip(1), i, bids, asks, key) == quantity_before(
            batches,
            i + 1,
            bids,
            asks,
            key,
        ),
    decreases batches.len() - i,
{
    if i < batches.len() - 1 {
        assert(batches.skip(1)[i] == batches[i + 1]);
        lemma_before_skip(batches, i + 1, bids, asks, key);
    }
}

/// An empty batch at the end changes nothing.
proof fn lemma_before_empty_tail(
    batches: Seq<BatchState>,
    b: BatchState,
    i: int,
    bids: Seq<(Px, Qty)>,
    asks: Seq<(Px, Qty)>,
    key: (Side, Px),
)
    requires
        0 <= i,
        b.changes.len() == 0,
    ensures
        quantity_before(batches.push(b), i, bids, asks, key) == quantity_before(
            batches,
            i,
            bids,
            asks,
            key,
        ),
    decreases batches.len() + 1 - i,
{
    let e = batches.push(b);
    if i < batches.len() {
        assert(e[i] == batches[i]);
        lemma_before_empty_tail(batches, b, i + 1, bids, asks, key);
    } else if i == batches.len() {
        assert(e[i] == b);
        assert(find(b.changes, key) is None);
        assert(quantity_before(e, i, bids, asks, key) == quantity_before(
            e,
            i + 1,
            bids,
            asks,
            key,
        ));
    }
}

/// Only the changes of the batches matter.
proof fn lemma_before_same(
    a: Seq<BatchState>,
    b: Seq<BatchState>,
    i: int,
    bids: Seq<(Px, Qty)>,
    asks: Seq<(Px, Qty)>,
    key: (Side, Px),
)
    requires
        0 <= i,
        a.len() == b.len(),
        forall|j: int|
            i <= j < a.len() ==> find((#[trigger] a[j]).changes, key) == find(b[j].changes, key),
    ensures
        quantity_before(a, i, bids, asks, key) == quantity_before(b, i, bids, asks, key),
    decreases a.len() - i,
{
    if i < a.len() {
        assert(find(a[i].changes, key) == find(b[i].changes, key));
        lemma_before_same(a, b, i + 1, bids, asks, key);
    }
}

/// Only the first quantity of each change matters.
proof fn lemma_before_firsts(
    a: Seq<BatchState>,
    b: Seq<BatchState>,
    i: int,
    bids: Seq<(Px, Qty)>,
    asks: Seq<(Px, Qty)>,
    key: (Side, Px),
)
    requires
        0 <= i,
        a.len() == b.len(),
        forall|j: int|
            i <= j < a.len() ==> match (
                find((#[trigger] a[j]).changes, key),
                find(b[j].changes, key),
            ) {
                (Some(x), Some(y)) => x.0 == y.0,
                (None, None) => true,
                _ => false,
            },
    ensures
        quantity_before(a, i, bids, asks, key) == quantity_before(b, i, bids, asks, key),
    decreases a.len() - i,
{
    if i < a.len() {
        let x = find(a[i].changes, key);
        lemma_before_firsts(a, b, i + 1, bids, asks, key);
    }
}

proof fn lemma_close_linked<K: FlowSink>(s: AlignState<K::State>)
    requires
        linked(s),
    ensures
        linked(close_next::<K>(s)),
{
    lemma_close::<K>(s);
    let t = close_next::<K>(s);
    if s.batches.len() > 0 {
        assert(extended(t) =~= extended(s).skip(1));
        assert forall|i: int| 0 <= i < t.batches.len() implies sorted(
            (#[trigger] t.batches[i]).changes,
        ) by {
            assert(t.batches[i] == s.batches[i + 1]);
        }
        assert forall|i: int, key: (Side, Px)|
            #![trigger find(extended(t)[i].changes, key)]
            0 <= i <= t.batches.len() implies (find(extended(t)[i].changes, key) matches Some(qq)
            ==> qq.1 == quantity_before(extended(t), i + 1, t.bids, t.asks, key)) by {
            assert(extended(t)[i] == extended(s)[i + 1]);
            let f = find(extended(s)[i + 1].changes, key);
            lemma_before_skip(extended(s), i + 1, s.bids, s.asks, key);
        }
    }
}

pub proof fn lemma_ready_chain<K: FlowSink>(s: AlignState<K::State>)
    ensures
        linked(s) ==> linked(ready_next::<K>(s)),
        ordered(s) ==> ordered(ready_next::<K>(s)),
        same_mirror(s, ready_next::<K>(s)),
    decreases s.batches.len(),
{
    if s.batches.len() >= 2 && (by_trades(s) || by_timeout(s)) {
        let c = if by_trades(s) {
            AlignerStats { closed_by_trades: inc(s.stats.closed_by_trades), ..s.stats }
        } else {
            AlignerStats { closed_by_timeout: inc(s.stats.closed_by_timeout), ..s.stats }
        };
        let t = AlignState { stats: c, ..s };
        assert(extended(t) =~= extended(s));
        if linked(s) {
            lemma_close_linked::<K>(t);
        }
        if ordered(s) {
            lemma_close_ordered::<K>(t);
        }
        lemma_close_mirror::<K>(t);
        lemma_close::<K>(t);
        lemma_ready_chain::<K>(close_next::<K>(t));
    }
}

pub proof fn lemma_forced_chain<K: FlowSink>(s: AlignState<K::State>)
    ensures
        linked(s) ==> linked(forced_next::<K>(s)),
        ordered(s) ==> ordered(forced_next::<K>(s)),
        same_mirror(s, forced_next::<K>(s)),
    decreases s.batches.len(),
{
    if s.batches.len() > s.cfg.max_open_batches {
        let t = AlignState {
            stats: AlignerStats { closed_forced: inc(s.stats.closed_forced), ..s.stats },
            ..s
        };
        assert(extended(t) =~= extended(s));
        if linked(s) {
            lemma_close_linked::<K>(t);
        }
        if ordered(s) {
            lemma_close_ordered::<K>(t);
        }
        lemma_close_mirror::<K>(t);
        lemma_close::<K>(t);
        lemma_forced_chain::<K>(close_next::<K>(t));
    }
}

proof fn lemma_evicted_chain<S>(s: AlignState<S>)
    ensures
        linked(s) ==> linked(evicted(s)),
        ordered(s) ==> ordered(evicted(s)),
        same_mirror(s, evicted(s)),
    decreases s.trades.len(),
{
    if s.trades.len() > s.cfg.max_trades {
        let rest = AlignState { trades: s.trades.skip(1), ..s };
        let t = if s.trades[0].1.counted {
            rest
        } else {
            AlignState {
                uncounted: clamp_u64(s.uncounted - 1) as u64,
                batches: overflowed(s.batches),
                stats: AlignerStats { overflow: inc(s.stats.overflow), ..s.stats },
                ..rest
            }
        };
        assert forall|i: int| 0 <= i < t.batches.len() implies (#[trigger] t.batches[i]).changes
            == s.batches[i].changes && t.batches[i].start == s.batches[i].start
            && t.batches[i].end == s.batches[i].end by {
        }
        if linked(s) {
            assert forall|i: int, key: (Side, Px)|
                #![trigger find(extended(t)[i].changes, key)]
                0 <= i <= t.batches.len() implies (find(extended(t)[i].changes, key) matches Some(
                qq,
            ) ==> qq.1 == quantity_before(extended(t), i + 1, t.bids, t.asks, key)) by {
                let f = find(extended(s)[i].changes, key);
                assert forall|j: int| i + 1 <= j < extended(t).len() implies find(
                    (#[trigger] extended(t)[j]).changes,
                    key,
                ) == find(extended(s)[j].changes, key) by {
                    if j < t.batches.len() {
                        assert(t.batches[j].changes == s.batches[j].changes);
                    }
                }
                if i < t.batches.len() {
                    assert(t.batches[i].changes == s.batches[i].changes);
                }
                lemma_before_same(extended(t), extended(s), i + 1, s.bids, s.asks, key);
            }
            assert(linked(t));
        }
        if ordered(s) {
            assert forall|i: int| 0 <= i < t.trades.len() implies if (
            #[trigger] t.trades[i]).1.counted {
                t.trades[i].0.0 <= t.finalized_until
            } else {
                t.trades[i].0.0 > t.finalized_until || t.trades[i].0.0 == 0
            } by {
                assert(t.trades[i] == s.trades[i + 1]);
            }
            assert(ordered(t));
        }
        lemma_evicted_chain(t);
    }
}

proof fn lemma_trade_chain<K: FlowSink>(s: AlignState<K::State>, t: AggTrade)
    ensures
        linked(s) ==> linked(on_trade_next::<K>(s, t)),
        ordered(s) ==> ordered(on_trade_next::<K>(s, t)),
        same_mirror(s, on_trade_next::<K>(s, t)),
{
    let c = AlignerStats { trades_rx: inc(s.stats.trades_rx), ..s.stats };
    let ts = t.trade_ts_ms;
    let d = s.cfg.boundary_slack_ms;
    let m = AlignState { lines: marked(s.lines, t.rx.line, t.exch_ts_ms), stats: c, ..s };
    assert(extended(on_trade_next::<K>(s, t)) =~= extended(s) || s.live);
    if s.live && !(m.finalized_until > 0 && ts <= m.finalized_until) && !holds(
        m.trades,
        (ts, t.agg_id),
    ) {
        let c1 = if d > 0 && m.finalized_until > 0 && ts <= m.finalized_until + d {
            AlignerStats { late_ambiguous: inc(c.late_ambiguous), ..c }
        } else {
            c
        };
        let u = AlignState {
            trades: put(m.trades, (ts, t.agg_id), rec_of(t)),
            uncounted: inc(m.uncounted),
            stats: c1,
            ..m
        };
        assert(extended(u) =~= extended(s));
        crate::conservation::lemma_put_entries(s.trades, (ts, t.agg_id), rec_of(t));
        if ordered(s) {
            assert(ordered(u));
        }
        lemma_evicted_chain(u);
        lemma_ready_chain::<K>(evicted(u));
    } else {
        let r = on_trade_next::<K>(s, t);
        assert(extended(r) =~= extended(s));
    }
}

/// A change of a level keeps the quantities before each batch.
proof fn lemma_before_level<S>(
    s: AlignState<S>,
    side: Side,
    px: Px,
    prev: Qty,
    new: Qty,
    i: int,
    key: (Side, Px),
)
    requires
        linked(s),
        0 <= i <= s.batches.len(),
        prev == (match side {
            Side::Bid => ladder_qty(s.bids, px),
            Side::Ask => ladder_qty(s.asks, px),
        }),
    ensures
        ({
            let t = on_level_next(s, side, px, prev, new);
            quantity_before(extended(t), i, t.bids, t.asks, key) == quantity_before(
                extended(s),
                i,
                s.bids,
                s.asks,
                key,
            )
        }),
    decreases s.batches.len() - i,
{
    let t = on_level_next(s, side, px, prev, new);
    let n = s.batches.len() as int;
    if i < n {
        assert(extended(t)[i] == extended(s)[i]);
        lemma_before_level(s, side, px, prev, new, i + 1, key);
    } else {
        lemma_set_find(s.bids, px, new);
        lemma_set_find(s.asks, px, new);
        lemma_staged(s.staging, (side, px), prev, new);
        assert(find(t.staging, key) == find(staged(s.staging, (side, px), prev, new), key));
        assert(extended(t)[n].changes == t.staging);
        assert(extended(s)[n].changes == s.staging);
        if key != (side, px) {
            assert(find(t.staging, key) == find(s.staging, key));
            lemma_mirror_elsewhere(s, side, px, prev, new, key);
            assert(quantity_before(extended(t), n + 1, t.bids, t.asks, key) == quantity_before(
                extended(s),
                n + 1,
                s.bids,
                s.asks,
                key,
            ));
        } else {
            assert(quantity_before(extended(s), n + 1, s.bids, s.asks, key) == prev);
        }
    }
}

proof fn lemma_staged(
    changes: Seq<((Side, Px), (Qty, Qty))>,
    key: (Side, Px),
    prev: Qty,
    new: Qty,
)
    requires
        sorted(changes),
    ensures
        sorted(staged(changes, key, prev, new)),
        forall|k: (Side, Px)|
            #![trigger find(staged(changes, key, prev, new), k)]
            find(staged(changes, key, prev, new), k) == (if k == key {
                Some(
                    (
                        match find(changes, key) {
                            Some(e) => e.0,
                            None => prev,
                        },
                        new,
                    ),
                )
            } else {
                find(changes, k)
            }),
{
    let first = match find(changes, key) {
        Some(e) => e.0,
        None => prev,
    };
    lemma_put(changes, key, (first, new));
}

/// A change of one level leaves the others of the mirror as they were.
proof fn lemma_mirror_elsewhere<S>(
    s: AlignState<S>,
    side: Side,
    px: Px,
    prev: Qty,
    new: Qty,
    key: (Side, Px),
)
    requires
        sorted(s.bids),
        sorted(s.asks),
        key != (side, px),
    ensures
        ({
            let t = on_level_next(s, side, px, prev, new);
            &&& key.0 == Side::Bid ==> ladder_qty(t.bids, key.1) == ladder_qty(s.bids, key.1)
            &&& key.0 == Side::Ask ==> ladder_qty(t.asks, key.1) == ladder_qty(s.asks, key.1)
        }),
{
    lemma_set_find(s.bids, px, new);
    lemma_set_find(s.asks, px, new);
    assert(find(ladder_set(s.bids, px, new), key.1) == find(ladder_set(s.bids, px, new), key.1));
    assert(find(ladder_set(s.asks, px, new), key.1) == find(ladder_set(s.asks, px, new), key.1));
}

proof fn lemma_level_linked<S>(s: AlignState<S>, side: Side, px: Px, prev: Qty, new: Qty)
    requires
        linked(s),
        prev == (match side {
            Side::Bid => ladder_qty(s.bids, px),
            Side::Ask => ladder_qty(s.asks, px),
        }),
    ensures
        linked(on_level_next(s, side, px, prev, new)),
{
    let t = on_level_next(s, side, px, prev, new);
    let n = s.batches.len() as int;
    lemma_set_find(s.bids, px, new);
    lemma_set_find(s.asks, px, new);
    lemma_staged(s.staging, (side, px), prev, new);
    assert forall|i: int, key: (Side, Px)|
        #![trigger find(extended(t)[i].changes, key)]
        0 <= i <= t.batches.len() implies (find(extended(t)[i].changes, key) matches Some(qq)
        ==> qq.1 == quantity_before(extended(t), i + 1, t.bids, t.asks, key)) by {
        if i < n {
            assert(extended(t)[i] == extended(s)[i]);
            let f = find(extended(s)[i].changes, key);
            lemma_before_level(s, side, px, prev, new, i + 1, key);
        } else {
            assert(extended(t)[n].changes == t.staging);
            assert(extended(s)[n].changes == s.staging);
            let f = find(extended(s)[n].changes, key);
            assert(find(t.staging, key) == find(staged(s.staging, (side, px), prev, new), key));
            if key != (side, px) {
                lemma_mirror_elsewhere(s, side, px, prev, new, key);
            } else {
                match side {
                    Side::Bid => {
                        assert(find(t.bids, px) == (if new.0 == 0 {
                            None
                        } else {
                            Some(new)
                        }));
                    },
                    Side::Ask => {
                        assert(find(t.asks, px) == (if new.0 == 0 {
                            None
                        } else {
                            Some(new)
                        }));
                    },
                }
            }
        }
    }
}

proof fn lemma_merged(
    changes: Seq<((Side, Px), (Qty, Qty))>,
    more: Seq<((Side, Px), (Qty, Qty))>,
)
    requires
        sorted(changes),
        sorted(more),
    ensures
        sorted(merged(changes, more)),
        forall|k: (Side, Px)|
            #![trigger find(merged(changes, more), k)]
            find(merged(changes, more), k) == (match (find(changes, k), find(more, k)) {
                (Some(a), Some(b)) => Some((a.0, b.1)),
                (None, Some(b)) => Some(b),
                (a, None) => a,
            }),
    decreases more.len(),
{
    if more.len() > 0 {
        let u = more.drop_last();
        let (key, (p, n)) = more.last();
        lemma_drop_last(more);
        lemma_merged(changes, u);
        lemma_staged(merged(changes, u), key, p, n);
        assert forall|k: (Side, Px)|
            #![trigger find(merged(changes, more), k)]
            find(merged(changes, more), k) == (match (find(changes, k), find(more, k)) {
                (Some(a), Some(b)) => Some((a.0, b.1)),
                (None, Some(b)) => Some(b),
                (a, None) => a,
            }) by {
            assert(find(staged(merged(changes, u), key, p, n), k) == find(
                merged(changes, more),
                k,
            ));
            assert(find(merged(changes, u), k) == (match (find(changes, k), find(u, k)) {
                (Some(a), Some(b)) => Some((a.0, b.1)),
                (None, Some(b)) => Some(b),
                (a, None) => a,
            }));
            assert(find(u, k) == (if k == key {
                None
            } else {
                find(more, k)
            }));
        }
    }
}

/// Joining the diff in progress to the last batch keeps the quantities before it.
proof fn lemma_before_join(
    batches: Seq<BatchState>,
    tail: BatchState,
    joined: BatchState,
    i: int,
    bids: Seq<(Px, Qty)>,
    asks: Seq<(Px, Qty)>,
    key: (Side, Px),
)
    requires
        batches.len() > 0,
        0 <= i < batches.len(),
        sorted(batches.last().changes),
        sorted(tail.changes),
        joined.changes == merged(batches.last().changes, tail.changes),
    ensures
        quantity_before(batches.update(batches.len() - 1, joined), i, bids, asks, key)
            == quantity_before(batches.push(tail), i, bids, asks, key),
    decreases batches.len() - i,
{
    let n = batches.len() - 1;
    let a = batches.update(n, joined);
    let b = batches.push(tail);
    lemma_merged(batches.last().changes, tail.changes);
    if i < n {
        assert(a[i] == b[i]);
        lemma_before_join(batches, tail, joined, i + 1, bids, asks, key);
    } else {
        assert(a[n] == joined);
        assert(b[n] == batches[n]);
        assert(b[n + 1] == tail);
        assert(find(merged(batches.last().changes, tail.changes), key) == find(
            joined.changes,
            key,
        ));
        assert(quantity_before(a, n + 1, bids, asks, key) == quantity_before(
            b,
            n + 2,
            bids,
            asks,
            key,
        ));
        assert(quantity_before(b, n + 1, bids, asks, key) == (match find(tail.changes, key) {
            Some(qq) => qq.0,
            None => quantity_before(b, n + 2, bids, asks, key),
        }));
    }
}

proof fn lemma_batched_linked<S>(s: AlignState<S>, d: DepthDiff)
    requires
        linked(s),
    ensures
        linked(batched(s, d)),
{
    let t = batched(s, d);
    let n = s.batches.len() as int;
    let raw = match d.match_ts_ms {
        Some(x) => x,
        None => d.exch_ts_ms,
    };
    let ts = if raw < s.last_end {
        s.last_end
    } else {
        raw
    };
    let e = extended(t);
    let tail = e[e.len() - 1];
    assert(tail.changes.len() == 0);
    assert(e =~= t.batches.push(tail));
    if n > 0 && s.batches.last().end == ts {
        let last = s.batches[n - 1];
        lemma_merged(last.changes, s.staging);
        assert(t.batches.len() == n);
        let stage = extended(s)[n];
        assert(extended(s) =~= s.batches.push(stage));
        assert forall|i: int, key: (Side, Px)|
            #![trigger find(e[i].changes, key)]
            0 <= i <= t.batches.len() implies (find(e[i].changes, key) matches Some(qq) ==> qq.1
            == quantity_before(e, i + 1, t.bids, t.asks, key)) by {
            if i < n {
                lemma_before_empty_tail(t.batches, tail, i + 1, t.bids, t.asks, key);
                let f = find(extended(s)[i].changes, key);
                if i < n - 1 {
                    assert(e[i] == extended(s)[i]);
                    lemma_before_join(
                        s.batches,
                        stage,
                        t.batches[n - 1],
                        i + 1,
                        s.bids,
                        s.asks,
                        key,
                    );
                } else {
                    let g = find(extended(s)[n].changes, key);
                    assert(find(merged(last.changes, s.staging), key) == find(e[i].changes, key));
                    assert(quantity_before(extended(s), n, s.bids, s.asks, key) == (match g {
                        Some(qq) => qq.0,
                        None => quantity_before(extended(s), n + 1, s.bids, s.asks, key),
                    }));
                }
            }
        }
    } else {
        let opened = t.batches[n];
        let stage = extended(s)[n];
        assert(t.batches =~= s.batches.push(opened));
        assert(extended(s) =~= s.batches.push(stage));
        assert forall|i: int, key: (Side, Px)|
            #![trigger find(e[i].changes, key)]
            0 <= i <= t.batches.len() implies (find(e[i].changes, key) matches Some(qq) ==> qq.1
            == quantity_before(e, i + 1, t.bids, t.asks, key)) by {
            if i <= n {
                lemma_before_empty_tail(t.batches, tail, i + 1, t.bids, t.asks, key);
                let f = find(extended(s)[i].changes, key);
                assert forall|j: int| i + 1 <= j < t.batches.len() implies find(
                    (#[trigger] t.batches[j]).changes,
                    key,
                ) == find(extended(s)[j].changes, key) by {
                }
                lemma_before_same(t.batches, extended(s), i + 1, s.bids, s.asks, key);
                assert(e[i].changes == extended(s)[i].changes);
            }
        }
        assert forall|i: int| 0 <= i < t.batches.len() implies sorted(
            (#[trigger] t.batches[i]).changes,
        ) by {
            if i < n {
                assert(t.batches[i] == s.batches[i]);
            }
        }
    }
}

pub proof fn lemma_batched_ordered<S>(s: AlignState<S>, d: DepthDiff)
    requires
        ordered(s),
        s.live,
    ensures
        ordered(batched(s, d)),
{
    let t = batched(s, d);
    let n = s.batches.len() as int;
    assert forall|i: int| 1 <= i < t.batches.len() implies (#[trigger] t.batches[i]).start
        == t.batches[i - 1].end by {
        if i < n {
            assert(s.batches[i].start == s.batches[i - 1].end);
        }
    }
    assert forall|i: int| 0 <= i < t.batches.len() implies (#[trigger] t.batches[i]).start
        <= t.batches[i].end by {
        if i < n {
            assert(s.batches[i].start <= s.batches[i].end);
        }
    }
}

/// What the book that feeds the aligner takes care of: a change of a level brings
/// the quantity that the level had, and the book is rebuilt only once
/// synchronisation was lost.
pub open spec fn proper<S>(s: AlignState<S>, i: FlowInput) -> bool {
    match i {
        FlowInput::Level(side, px, prev, new) => prev == (match side {
            Side::Bid => ladder_qty(s.bids, px),
            Side::Ask => ladder_qty(s.asks, px),
        }),
        FlowInput::Rebuild(e, b) => !s.live && b.wf(),
        _ => true,
    }
}

/// Every input of a run is proper when it comes.
pub open spec fn proper_run<K: FlowSink>(s: AlignState<K::State>, inputs: Seq<FlowInput>) -> bool
    decreases inputs.len(),
{
    inputs.len() == 0 || (proper_run::<K>(s, inputs.drop_last()) && proper(
        flow_run::<K>(s, inputs.drop_last()),
        inputs.last(),
    ))
}

/// The book is rebuilt only once synchronisation was lost.
pub open spec fn rebuilt_after_loss<K: FlowSink>(
    s: AlignState<K::State>,
    inputs: Seq<FlowInput>,
) -> bool
    decreases inputs.len(),
{
    inputs.len() == 0 || (rebuilt_after_loss::<K>(s, inputs.drop_last()) && (
    inputs.last() is Rebuild ==> !flow_run::<K>(s, inputs.drop_last()).live))
}

/// One input keeps the batches ordered.
proof fn lemma_take_ordered<K: FlowSink>(s: AlignState<K::State>, i: FlowInput)
    requires
        ordered(s),
        i is Rebuild ==> !s.live,
    ensures
        ordered(flow_take::<K>(s, i)),
{
    match i {
        FlowInput::Trade(tr) => {
            lemma_trade_chain::<K>(s, tr);
        },
        FlowInput::Line(l, ts) => {
            if s.live {
                lemma_ready_chain::<K>(AlignState { lines: marked(s.lines, l, ts), ..s });
            }
        },
        FlowInput::Level(side, px, prev, new) => {},
        FlowInput::Diff(d) => {
            if s.live {
                lemma_batched_ordered(s, d);
                lemma_forced_chain::<K>(batched(s, d));
                lemma_ready_chain::<K>(forced_next::<K>(batched(s, d)));
            }
        },
        FlowInput::Rebuild(e, b) => {},
        FlowInput::Invalidate(e, r) => {},
    }
}

/// Batches chain in time: whatever the inputs, as long as the book is rebuilt only
/// once synchronisation was lost, consecutive batches share their boundary, the
/// oldest starts where the last closed one ended, and every counted trade lies in a
/// closed batch.
pub proof fn law_batches_ordered<K: FlowSink>(
    cfg: AlignerConfig,
    sink: K::State,
    inputs: Seq<FlowInput>,
)
    requires
        rebuilt_after_loss::<K>(align_start(cfg, sink), inputs),
    ensures
        ordered(flow_run::<K>(align_start(cfg, sink), inputs)),
    decreases inputs.len(),
{
    if inputs.len() > 0 {
        law_batches_ordered::<K>(cfg, sink, inputs.drop_last());
        lemma_take_ordered::<K>(
            flow_run::<K>(align_start(cfg, sink), inputs.drop_last()),
            inputs.last(),
        );
    }
}

/// One proper input keeps the batches linked.
proof fn lemma_take_linked<K: FlowSink>(s: AlignState<K::State>, i: FlowInput)
    requires
        ordered(s),
        linked(s),
        proper(s, i),
    ensures
        linked(flow_take::<K>(s, i)),
{
    let t = flow_take::<K>(s, i);
    match i {
        FlowInput::Trade(tr) => {
            lemma_trade_chain::<K>(s, tr);
        },
        FlowInput::Line(l, ts) => {
            if s.live {
                let m = AlignState { lines: marked(s.lines, l, ts), ..s };
                assert(extended(m) =~= extended(s));
                lemma_ready_chain::<K>(m);
            }
        },
        FlowInput::Level(side, px, prev, new) => {
            lemma_level_linked(s, side, px, prev, new);
        },
        FlowInput::Diff(d) => {
            if s.live {
                lemma_batched_linked(s, d);
                lemma_forced_chain::<K>(batched(s, d));
                lemma_ready_chain::<K>(forced_next::<K>(batched(s, d)));
            } else {
                assert(extended(t)[0].changes.len() == 0);
                assert forall|j: int, key: (Side, Px)|
                    #![trigger find(extended(t)[j].changes, key)]
                    0 <= j <= t.batches.len() implies find(extended(t)[j].changes, key) is None by {
                }
            }
        },
        FlowInput::Rebuild(e, b) => {
            assert forall|j: int, key: (Side, Px)|
                #![trigger find(extended(t)[j].changes, key)]
                0 <= j <= t.batches.len() implies find(extended(t)[j].changes, key) is None by {
                assert(extended(t)[0].changes.len() == 0);
            }
        },
        FlowInput::Invalidate(e, r) => {
            assert forall|j: int, key: (Side, Px)|
                #![trigger find(extended(t)[j].changes, key)]
                0 <= j <= t.batches.len() implies find(extended(t)[j].changes, key) is None by {
                assert(extended(t)[0].changes.len() == 0);
            }
        },
    }
}

/// Batches chain in time and in quantities: after any proper inputs, consecutive
/// batches share their boundary, every counted trade lies in a closed batch, and
/// the quantity of a level at the end of a batch is the one it has before the next
/// batch that changes it or, if there is none, on the mirror of the book.
pub proof fn law_batches_chain<K: FlowSink>(
    cfg: AlignerConfig,
    sink: K::State,
    inputs: Seq<FlowInput>,
)
    requires
        proper_run::<K>(align_start(cfg, sink), inputs),
    ensures
        ordered(flow_run::<K>(align_start(cfg, sink), inputs)),
        linked(flow_run::<K>(align_start(cfg, sink), inputs)),
    decreases inputs.len(),
{
    let s0 = align_start(cfg, sink);
    if inputs.len() == 0 {
        assert forall|j: int, key: (Side, Px)|
            #![trigger find(extended(s0)[j].changes, key)]
            0 <= j <= s0.batches.len() implies find(extended(s0)[j].changes, key) is None by {
            assert(extended(s0)[0].changes.len() == 0);
        }
    } else {
        law_batches_chain::<K>(cfg, sink, inputs.drop_last());
        lemma_take_ordered::<K>(flow_run::<K>(s0, inputs.drop_last()), inputs.last());
        lemma_take_linked::<K>(flow_run::<K>(s0, inputs.drop_last()), inputs.last());
    }
}

/// The quantities of every flow are exact: `q0` is what the level had before the
/// batch, and `q1` what it has before the rest, down to the mirror of the book.
pub proof fn law_flow_quantities_exact<S>(s: AlignState<S>, m: int)
    requires
        linked(s),
        s.staging.len() == 0,
        s.batches.len() > 0,
        ({
            let t = AlignState { batches: s.batches.skip(1), ..s };
            0 <= m < flows_of(t, s.batches[0]).len()
        }),
    ensures
        ({
            let t = AlignState { batches: s.batches.skip(1), ..s };
            let f = flows_of(t, s.batches[0])[m];
            &&& f.q0 == quantity_before(s.batches, 0, s.bids, s.asks, (f.side, f.px))
            &&& f.q1 == quantity_before(s.batches, 1, s.bids, s.asks, (f.side, f.px))
        }),
{
    let t = AlignState { batches: s.batches.skip(1), ..s };
    let b = s.batches[0];
    let acc = sums(s.trades, b, s.cfg.boundary_slack_ms);
    let keys = all_keys(b.changes, acc);
    let key = keys[m].0;
    let f = flows_of(t, b)[m];
    crate::flow_laws::lemma_flow_entry(t, b, m);
    assert(keys[m].1.0 == find(b.changes, key));
    lemma_before_skip(s.batches, 0, s.bids, s.asks, key);
    let e = extended(s);
    let tail = e[e.len() - 1];
    assert(e =~= s.batches.push(tail));
    assert(tail.changes.len() == 0);
    lemma_before_empty_tail(s.batches, tail, 1, s.bids, s.asks, key);
    assert(e[0] == b);
    let g = find(extended(s)[0].changes, key);
}

/// The mirror of the aligner is the book.
pub open spec fn mirrors<S>(o: AlignState<S>, b: BookState) -> bool {
    o.bids == b.bids && o.asks == b.asks
}

/// Feeding the levels of a diff to the book and to the aligner keeps the mirror
/// equal to the book, and never finds a previous quantity that differs.
pub proof fn law_mirror_follows_book<K: FlowSink>(
    book: BookState,
    obs: AlignState<K::State>,
    side: Side,
    levels: Seq<Level>,
    ts: u64,
)
    requires
        mirrors(obs, book),
    ensures
        ({
            let (b, o) = levels_next::<Aligner<K>>(book, obs, side, levels, ts);
            &&& mirrors(o, b)
            &&& o.stats.mirror_mismatch == obs.stats.mirror_mismatch
            &&& o.live == obs.live
        }),
    decreases levels.len(),
{
    if levels.len() > 0 {
        law_mirror_follows_book::<K>(book, obs, side, levels.drop_last(), ts);
    }
}

/// Losing synchronisation discards every open batch, contaminated, and every trade held:
/// none of them ever becomes a flow.
pub proof fn law_loss_discards_what_is_open<K: FlowSink>(
    s: AlignState<K::State>,
    epoch: u64,
    reason: ResyncReason,
)
    requires
        s.stats.batches_contaminated + s.batches.len() <= u64::MAX,
    ensures
        ({
            let t = on_invalidate_next::<K>(s, epoch, reason);
            &&& !t.live
            &&& t.batches.len() == 0 && t.trades.len() == 0 && t.staging.len() == 0
            &&& t.stats.batches_contaminated == s.stats.batches_contaminated + s.batches.len()
            &&& t.stats.flows_emitted == s.stats.flows_emitted
            &&& t.sink == K::invalidate_next(s.sink, epoch, reason)
        }),
{
}

/// Epochs never mix: a rebuilt book starts with nothing of the epoch before, and its first
/// batch, whose quantities come from the snapshot, is contaminated.
pub proof fn law_epochs_never_mix<K: FlowSink>(
    s: AlignState<K::State>,
    epoch: u64,
    book: BookState,
    d: DepthDiff,
)
    requires
        ordered(s),
        !s.live,
    ensures
        ({
            let t = on_rebuild_next::<K>(s, epoch, book);
            let first = batched(t, d).batches;
            &&& t.epoch == epoch
            &&& t.batches.len() == 0 && t.trades.len() == 0 && t.staging.len() == 0
            &&& mirrors(t, book)
            &&& first.len() == 1
            &&& first[0].contaminated == Some(Contamination::EpochStart)
        }),
{
}

/// The mark of the trades is not ahead of a line that is not too far behind.
proof fn lemma_rear_mark(lines: Seq<(u64, u64)>, front: u64, i: int)
    requires
        0 <= i < lines.len(),
        lines[i].1 + LINE_LAG_MS >= front,
    ensures
        rear_mark(lines, front) <= lines[i].1,
    decreases lines.len(),
{
    if i < lines.len() - 1 {
        assert(lines.drop_last()[i] == lines[i]);
        lemma_rear_mark(lines.drop_last(), front, i);
    }
}

/// A batch that closes by its trades waited for every live line: where a line delivers in
/// order of exchange time, and that time is at most the slack after the one of the trade,
/// nothing that such a line still delivers belongs to the batch.
pub proof fn law_batch_waits_for_live_lines<S>(s: AlignState<S>, t: AggTrade)
    requires
        s.batches.len() > 0,
        by_trades(s),
        match find(s.lines, t.rx.line as u64) {
            Some(mark) => mark + LINE_LAG_MS >= front_mark(s.lines) && mark <= t.exch_ts_ms,
            None => false,
        },
        t.exch_ts_ms <= t.trade_ts_ms + s.cfg.boundary_slack_ms,
    ensures
        t.trade_ts_ms > s.batches[0].end + s.cfg.boundary_slack_ms,
        !possible(s.batches[0], s.cfg.boundary_slack_ms, t.trade_ts_ms),
{
    let i = rank(s.lines, t.rx.line as u64) as int;
    lemma_rear_mark(s.lines, front_mark(s.lines), i);
}

/// The next flows are exact: after any proper inputs, with no slack, the flow of each level
/// of the oldest batch tells what the level had before and after the batch, and all that
/// traded there within it, no more and no less.
pub proof fn law_flows_exact<K: FlowSink>(
    cfg: AlignerConfig,
    sink: K::State,
    inputs: Seq<FlowInput>,
    m: int,
)
    requires
        proper_run::<K>(align_start(cfg, sink), inputs),
        ({
            let s = flow_run::<K>(align_start(cfg, sink), inputs);
            let t = AlignState { batches: s.batches.skip(1), ..s };
            &&& s.cfg.boundary_slack_ms == 0
            &&& s.batches.len() > 0
            &&& s.staging.len() == 0
            &&& nonnegative(s.trades)
            &&& 0 <= m < flows_of(t, s.batches[0]).len()
            &&& total(
                s.trades,
                (flows_of(t, s.batches[0])[m].side, flows_of(t, s.batches[0])[m].px),
                |i: int| true,
            ) <= i64::MAX
        }),
    ensures
        ({
            let s = flow_run::<K>(align_start(cfg, sink), inputs);
            let t = AlignState { batches: s.batches.skip(1), ..s };
            let b = s.batches[0];
            let f = flows_of(t, b)[m];
            let key = (f.side, f.px);
            let traded = total(s.trades, key, |i: int| b.start < s.trades[i].0.0 <= b.end);
            &&& f.executed.0 == traded
            &&& f.exec_lo.0 == traded
            &&& f.exec_hi.0 == traded
            &&& f.q0 == quantity_before(s.batches, 0, s.bids, s.asks, key)
            &&& f.q1 == quantity_before(s.batches, 1, s.bids, s.asks, key)
        }),
{
    let s = flow_run::<K>(align_start(cfg, sink), inputs);
    let t = AlignState { batches: s.batches.skip(1), ..s };
    let b = s.batches[0];
    law_batches_chain::<K>(cfg, sink, inputs);
    law_flow_quantities_exact(s, m);
    law_batch_counts_each_trade_once(s);
    assert(extended(s)[0] == b);
    crate::flow_laws::lemma_flow_entry(t, b, m);
    let e = all_keys(b.changes, sums(s.trades, b, 0))[m];
    law_executed_exact(s.trades, b, e.0);
}

} // verus!

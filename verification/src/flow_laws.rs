//! What the aligner promises: bounds, completeness and conservation.

use crate::align::{
    acc_next, align_start, all_keys, batched, by_timeout, by_trades, certain, changed_keys,
    close_next, counted_in, evicted, flow_of, flows_of, forced_next, lemma_close, marked, n_counted,
    nominal, observe_line_next, on_diff_next, on_invalidate_next, on_level_next, on_rebuild_next,
    on_trade_next, overflowed, possible, pruned, ready_next, rec_of, sums, unpruned, Acc,
    AlignState, AlignerConfig, AlignerStats, BatchState, FlowSink, LevelFlow, TradeRec,
};
use crate::book::BookState;
use crate::event::{AggTrade, DepthDiff, Side};
use crate::fixed::{Px, Qty};
use crate::num::clamp_u64;
use crate::ordmap::{
    find, holds, key_lt, lemma_drop_last, lemma_entry_found, lemma_put, lemma_rank_splits, put,
    rank, sorted,
};
use crate::sync::{inc, ResyncReason};
use vstd::prelude::*;

verus! {

/// How many of the trades no batch counted yet.
pub open spec fn open_count(trades: Seq<((u64, u64), TradeRec)>) -> nat
    decreases trades.len(),
{
    if trades.len() == 0 {
        0
    } else {
        open_count(trades.drop_last()) + (if trades.last().1.counted {
            0nat
        } else {
            1nat
        })
    }
}

proof fn lemma_open_concat(a: Seq<((u64, u64), TradeRec)>, b: Seq<((u64, u64), TradeRec)>)
    ensures
        open_count(a + b) == open_count(a) + open_count(b),
    decreases b.len(),
{
    if b.len() > 0 {
        lemma_open_concat(a, b.drop_last());
        assert((a + b).drop_last() =~= a + b.drop_last());
    } else {
        assert(a + b =~= a);
    }
}

proof fn lemma_open_one(e: ((u64, u64), TradeRec))
    ensures
        open_count(seq![e]) == (if e.1.counted {
            0nat
        } else {
            1nat
        }),
{
    assert(seq![e].drop_last() =~= Seq::empty());
    assert(open_count(Seq::<((u64, u64), TradeRec)>::empty()) == 0);
}

proof fn lemma_open_skip(s: Seq<((u64, u64), TradeRec)>)
    requires
        s.len() > 0,
    ensures
        open_count(s) == open_count(s.skip(1)) + (if s[0].1.counted {
            0nat
        } else {
            1nat
        }),
{
    assert(s =~= seq![s[0]] + s.skip(1));
    lemma_open_concat(seq![s[0]], s.skip(1));
    lemma_open_one(s[0]);
}

proof fn lemma_open_put(s: Seq<((u64, u64), TradeRec)>, k: (u64, u64), t: TradeRec)
    requires
        sorted(s),
        !holds(s, k),
        !t.counted,
    ensures
        open_count(put(s, k, t)) == open_count(s) + 1,
{
    lemma_rank_splits(s, k);
    let p = rank(s, k) as int;
    let u = put(s, k, t);
    assert(u =~= s.take(p) + seq![(k, t)] + s.skip(p));
    lemma_open_concat(s.take(p) + seq![(k, t)], s.skip(p));
    lemma_open_concat(s.take(p), seq![(k, t)]);
    lemma_open_one((k, t));
    assert(s =~= s.take(p) + s.skip(p));
    lemma_open_concat(s.take(p), s.skip(p));
}

proof fn lemma_open_counted(trades: Seq<((u64, u64), TradeRec)>, b: BatchState, d: u64)
    ensures
        open_count(counted_in(trades, b, d)) + n_counted(trades, b, d) == open_count(trades),
    decreases trades.len(),
{
    if trades.len() > 0 {
        lemma_open_counted(trades.drop_last(), b, d);
        assert(counted_in(trades, b, d).drop_last() =~= counted_in(trades.drop_last(), b, d));
    }
}

/// Every trade received is accounted for exactly once.
pub open spec fn tallied<S>(s: AlignState<S>) -> bool {
    &&& sorted(s.trades)
    &&& s.uncounted == open_count(s.trades)
    &&& s.stats.trades_rx == s.stats.settled() + s.uncounted
}

proof fn lemma_skip_sorted(s: Seq<((u64, u64), TradeRec)>)
    requires
        sorted(s),
        s.len() > 0,
    ensures
        sorted(s.skip(1)),
{
    let t = s.skip(1);
    assert forall|i: int, j: int| 0 <= i < j < t.len() implies key_lt(
        #[trigger] t[i].0,
        #[trigger] t[j].0,
    ) by {
        assert(t[i] == s[i + 1] && t[j] == s[j + 1]);
    }
}

proof fn lemma_pruned_tallied<S>(s: AlignState<S>)
    requires
        tallied(s),
    ensures
        tallied(pruned(s)),
    decreases s.trades.len(),
{
    if s.trades.len() > 0 && s.trades[0].0.0 + s.cfg.boundary_slack_ms <= s.finalized_until {
        let rest = AlignState { trades: s.trades.skip(1), ..s };
        lemma_open_skip(s.trades);
        lemma_skip_sorted(s.trades);
        if s.trades[0].1.counted {
            lemma_pruned_tallied(rest);
        } else {
            lemma_pruned_tallied(
                AlignState {
                    uncounted: clamp_u64(s.uncounted - 1) as u64,
                    stats: AlignerStats { late: inc(s.stats.late), ..s.stats },
                    ..rest
                },
            );
        }
    }
}

proof fn lemma_evicted_tallied<S>(s: AlignState<S>)
    requires
        tallied(s),
    ensures
        tallied(evicted(s)),
        evicted(s).stats.trades_rx == s.stats.trades_rx,
    decreases s.trades.len(),
{
    if s.trades.len() > s.cfg.max_trades {
        let rest = AlignState { trades: s.trades.skip(1), ..s };
        lemma_open_skip(s.trades);
        lemma_skip_sorted(s.trades);
        if s.trades[0].1.counted {
            lemma_evicted_tallied(rest);
        } else {
            lemma_evicted_tallied(
                AlignState {
                    uncounted: clamp_u64(s.uncounted - 1) as u64,
                    batches: overflowed(s.batches),
                    stats: AlignerStats { overflow: inc(s.stats.overflow), ..s.stats },
                    ..rest
                },
            );
        }
    }
}

proof fn lemma_close_tallied<K: FlowSink>(s: AlignState<K::State>)
    requires
        tallied(s),
    ensures
        tallied(close_next::<K>(s)),
        close_next::<K>(s).stats.trades_rx == s.stats.trades_rx,
{
    lemma_close::<K>(s);
    if s.batches.len() > 0 {
        let b = s.batches[0];
        let d = s.cfg.boundary_slack_ms;
        lemma_open_counted(s.trades, b, d);
        let u = unpruned::<K>(s);
        assert forall|i: int, j: int| 0 <= i < j < u.trades.len() implies key_lt(
            #[trigger] u.trades[i].0,
            #[trigger] u.trades[j].0,
        ) by {
            assert(u.trades[i].0 == s.trades[i].0 && u.trades[j].0 == s.trades[j].0);
        }
        lemma_pruned_tallied(u);
    }
}

proof fn lemma_ready_tallied<K: FlowSink>(s: AlignState<K::State>)
    requires
        tallied(s),
    ensures
        tallied(ready_next::<K>(s)),
        ready_next::<K>(s).stats.trades_rx == s.stats.trades_rx,
    decreases s.batches.len(),
{
    if s.batches.len() >= 2 && (by_trades(s) || by_timeout(s)) {
        let c = if by_trades(s) {
            AlignerStats { closed_by_trades: inc(s.stats.closed_by_trades), ..s.stats }
        } else {
            AlignerStats { closed_by_timeout: inc(s.stats.closed_by_timeout), ..s.stats }
        };
        let t = AlignState { stats: c, ..s };
        lemma_close_tallied::<K>(t);
        lemma_close::<K>(t);
        lemma_ready_tallied::<K>(close_next::<K>(t));
    }
}

proof fn lemma_forced_tallied<K: FlowSink>(s: AlignState<K::State>)
    requires
        tallied(s),
    ensures
        tallied(forced_next::<K>(s)),
        forced_next::<K>(s).stats.trades_rx == s.stats.trades_rx,
    decreases s.batches.len(),
{
    if s.batches.len() > s.cfg.max_open_batches {
        let t = AlignState {
            stats: AlignerStats { closed_forced: inc(s.stats.closed_forced), ..s.stats },
            ..s
        };
        lemma_close_tallied::<K>(t);
        lemma_close::<K>(t);
        lemma_forced_tallied::<K>(close_next::<K>(t));
    }
}

/// One input of the aligner.
pub enum FlowInput {
    /// A trade.
    Trade(AggTrade),
    /// A mark of a line.
    Line(u8, u64),
    /// A change of a level.
    Level(Side, Px, Qty, Qty),
    /// A whole diff was applied.
    Diff(DepthDiff),
    /// The book was rebuilt.
    Rebuild(u64, BookState),
    /// Synchronisation was lost.
    Invalidate(u64, ResyncReason),
}

/// The aligner takes one input.
pub open spec fn flow_take<K: FlowSink>(s: AlignState<K::State>, i: FlowInput) -> AlignState<
    K::State,
> {
    match i {
        FlowInput::Trade(t) => on_trade_next::<K>(s, t),
        FlowInput::Line(l, ts) => observe_line_next::<K>(s, l, ts),
        FlowInput::Level(side, px, prev, new) => on_level_next(s, side, px, prev, new),
        FlowInput::Diff(d) => on_diff_next::<K>(s, d),
        FlowInput::Rebuild(e, b) => on_rebuild_next::<K>(s, e, b),
        FlowInput::Invalidate(e, r) => on_invalidate_next::<K>(s, e, r),
    }
}

/// The state after a whole sequence of inputs.
pub open spec fn flow_run<K: FlowSink>(
    s: AlignState<K::State>,
    inputs: Seq<FlowInput>,
) -> AlignState<K::State>
    decreases inputs.len(),
{
    if inputs.len() == 0 {
        s
    } else {
        flow_take::<K>(flow_run::<K>(s, inputs.drop_last()), inputs.last())
    }
}

proof fn lemma_trade_tallied<K: FlowSink>(s: AlignState<K::State>, t: AggTrade)
    requires
        tallied(s),
        s.stats.trades_rx < u64::MAX,
    ensures
        tallied(on_trade_next::<K>(s, t)),
        on_trade_next::<K>(s, t).stats.trades_rx == s.stats.trades_rx + 1,
{
    let c = AlignerStats { trades_rx: inc(s.stats.trades_rx), ..s.stats };
    let ts = t.trade_ts_ms;
    let d = s.cfg.boundary_slack_ms;
    let m = AlignState { lines: marked(s.lines, t.rx.line, t.exch_ts_ms), stats: c, ..s };
    if s.live && !(m.finalized_until > 0 && ts <= m.finalized_until) && !holds(
        m.trades,
        (ts, t.agg_id),
    ) {
        let c1 = if d > 0 && m.finalized_until > 0 && ts <= m.finalized_until + d {
            AlignerStats { late_ambiguous: inc(c.late_ambiguous), ..c }
        } else {
            c
        };
        lemma_put(s.trades, (ts, t.agg_id), rec_of(t));
        lemma_open_put(s.trades, (ts, t.agg_id), rec_of(t));
        let u = AlignState {
            trades: put(m.trades, (ts, t.agg_id), rec_of(t)),
            uncounted: inc(m.uncounted),
            stats: c1,
            ..m
        };
        lemma_evicted_tallied(u);
        lemma_ready_tallied::<K>(evicted(u));
    }
}

proof fn lemma_take_tallied<K: FlowSink>(s: AlignState<K::State>, i: FlowInput)
    requires
        tallied(s),
        s.stats.trades_rx < u64::MAX,
    ensures
        tallied(flow_take::<K>(s, i)),
        flow_take::<K>(s, i).stats.trades_rx <= s.stats.trades_rx + 1,
{
    match i {
        FlowInput::Trade(t) => {
            lemma_trade_tallied::<K>(s, t);
        },
        FlowInput::Line(l, ts) => {
            if s.live {
                lemma_ready_tallied::<K>(AlignState { lines: marked(s.lines, l, ts), ..s });
            }
        },
        FlowInput::Level(side, px, prev, new) => {},
        FlowInput::Diff(d) => {
            if s.live {
                lemma_forced_tallied::<K>(batched(s, d));
                lemma_ready_tallied::<K>(forced_next::<K>(batched(s, d)));
            }
        },
        FlowInput::Rebuild(e, b) => {},
        FlowInput::Invalidate(e, r) => {
            assert(open_count(Seq::<((u64, u64), TradeRec)>::empty()) == 0);
        },
    }
}

/// Conservation of trades: whatever the inputs, every trade received is accounted
/// for exactly once (while fewer than `u64::MAX` have come), so that
/// [`crate::align::Aligner::unaccounted`] is zero after every one of them.
pub proof fn law_trades_conserved<K: FlowSink>(
    cfg: AlignerConfig,
    sink: K::State,
    inputs: Seq<FlowInput>,
)
    requires
        inputs.len() < u64::MAX,
    ensures
        tallied(flow_run::<K>(align_start(cfg, sink), inputs)),
        flow_run::<K>(align_start(cfg, sink), inputs).stats.trades_rx <= inputs.len(),
    decreases inputs.len(),
{
    if inputs.len() > 0 {
        law_trades_conserved::<K>(cfg, sink, inputs.drop_last());
        lemma_take_tallied::<K>(
            flow_run::<K>(align_start(cfg, sink), inputs.drop_last()),
            inputs.last(),
        );
    } else {
        assert(open_count(Seq::<((u64, u64), TradeRec)>::empty()) == 0);
    }
}

/// What a level's sums are, zero where there is no trade.
pub open spec fn acc_at(s: Seq<((Side, Px), Acc)>, key: (Side, Px)) -> Acc {
    match find(s, key) {
        Some(a) => a,
        None => Acc::zero(),
    }
}

/// The quantity of the trades at `key` whose position satisfies `f`.
pub open spec fn total(
    trades: Seq<((u64, u64), TradeRec)>,
    key: (Side, Px),
    f: spec_fn(int) -> bool,
) -> int
    decreases trades.len(),
{
    if trades.len() == 0 {
        0
    } else {
        let n = trades.len() - 1;
        total(trades.drop_last(), key, f) + (if trades.last().1.key == key && f(n) {
            trades.last().1.qty_n.0 as int
        } else {
            0
        })
    }
}

/// No trade has a negative quantity.
pub open spec fn nonnegative(trades: Seq<((u64, u64), TradeRec)>) -> bool {
    forall|i: int| 0 <= i < trades.len() ==> 0 <= (#[trigger] trades[i]).1.qty_n.0
}

/// Fewer positions, a smaller total.
pub proof fn lemma_total_monotone(
    trades: Seq<((u64, u64), TradeRec)>,
    key: (Side, Px),
    f: spec_fn(int) -> bool,
    g: spec_fn(int) -> bool,
)
    requires
        nonnegative(trades),
        forall|i: int| 0 <= i < trades.len() && #[trigger] f(i) ==> g(i),
    ensures
        0 <= total(trades, key, f) <= total(trades, key, g),
    decreases trades.len(),
{
    if trades.len() > 0 {
        let t = trades.drop_last();
        assert forall|i: int| 0 <= i < t.len() implies 0 <= (#[trigger] t[i]).1.qty_n.0 by {
            assert(t[i] == trades[i]);
        }
        lemma_total_monotone(t, key, f, g);
        assert(trades[trades.len() - 1].1.qty_n.0 >= 0);
        assert(f(trades.len() - 1) ==> g(trades.len() - 1));
    }
}

/// The total does not depend on positions past the end.
proof fn lemma_total_same(
    trades: Seq<((u64, u64), TradeRec)>,
    key: (Side, Px),
    f: spec_fn(int) -> bool,
    g: spec_fn(int) -> bool,
)
    requires
        forall|i: int| 0 <= i < trades.len() ==> f(i) == #[trigger] g(i),
    ensures
        total(trades, key, f) == total(trades, key, g),
    decreases trades.len(),
{
    if trades.len() > 0 {
        lemma_total_same(trades.drop_last(), key, f, g);
        assert(f(trades.len() - 1) == g(trades.len() - 1));
    }
}

/// The positions of the trades that may, surely do, or nominally do lie in a batch.
pub open spec fn at_possible(
    trades: Seq<((u64, u64), TradeRec)>,
    b: BatchState,
    d: u64,
) -> spec_fn(int) -> bool {
    |i: int| possible(b, d, trades[i].0.0)
}

/// The positions of the trades that surely lie in a batch.
pub open spec fn at_certain(
    trades: Seq<((u64, u64), TradeRec)>,
    b: BatchState,
    d: u64,
) -> spec_fn(int) -> bool {
    |i: int| possible(b, d, trades[i].0.0) && certain(b, d, trades[i].0.0)
}

/// The positions of the trades that a batch counts.
pub open spec fn at_nominal(
    trades: Seq<((u64, u64), TradeRec)>,
    b: BatchState,
    d: u64,
) -> spec_fn(int) -> bool {
    |i: int|
        possible(b, d, trades[i].0.0) && nominal(b, trades[i].0.0) && !trades[i].1.counted
}

/// The sums are the totals, where no quantity is negative and all fit.
proof fn lemma_sums(
    trades: Seq<((u64, u64), TradeRec)>,
    b: BatchState,
    d: u64,
    key: (Side, Px),
)
    requires
        nonnegative(trades),
        total(trades, key, |i: int| true) <= i64::MAX,
    ensures
        sorted(sums(trades, b, d)),
        acc_at(sums(trades, b, d), key).hi.0 == total(trades, key, at_possible(trades, b, d)),
        acc_at(sums(trades, b, d), key).lo.0 == total(trades, key, at_certain(trades, b, d)),
        acc_at(sums(trades, b, d), key).executed.0 == total(
            trades,
            key,
            at_nominal(trades, b, d),
        ),
    decreases trades.len(),
{
    if trades.len() > 0 {
        let u = trades.drop_last();
        let n = trades.len() - 1;
        assert forall|i: int| 0 <= i < u.len() implies 0 <= (#[trigger] u[i]).1.qty_n.0 by {
            assert(u[i] == trades[i]);
        }
        assert(trades[n].1.qty_n.0 >= 0);
        lemma_total_monotone(u, key, |i: int| false, |i: int| true);
        lemma_sums(u, b, d, key);
        let s = sums(u, b, d);
        let ((ts, id), t) = trades.last();
        lemma_total_same(u, key, at_possible(u, b, d), at_possible(trades, b, d));
        lemma_total_same(u, key, at_certain(u, b, d), at_certain(trades, b, d));
        lemma_total_same(u, key, at_nominal(u, b, d), at_nominal(trades, b, d));
        lemma_total_monotone(trades, key, at_possible(trades, b, d), |i: int| true);
        lemma_total_monotone(trades, key, at_certain(trades, b, d), |i: int| true);
        lemma_total_monotone(trades, key, at_nominal(trades, b, d), |i: int| true);
        if possible(b, d, ts) {
            let a = acc_at(s, t.key);
            lemma_put(s, t.key, acc_next(a, b, d, ts, t));
            assert(find(put(s, t.key, acc_next(a, b, d, ts, t)), key) == (if key == t.key {
                Some(acc_next(a, b, d, ts, t))
            } else {
                find(s, key)
            }));
        }
    }
}

/// The executed quantity that surely lies in the batch is no more than what really
/// does, and what may lie in it no less, whatever the real times are, within the
/// slack of the reported ones.
pub proof fn law_real_executions_bracketed(
    trades: Seq<((u64, u64), TradeRec)>,
    b: BatchState,
    d: u64,
    key: (Side, Px),
    moment: spec_fn(int) -> int,
)
    requires
        nonnegative(trades),
        total(trades, key, |i: int| true) <= i64::MAX,
        forall|i: int|
            0 <= i < trades.len() ==> 0 < trades[i].0.0 && trades[i].0.0 - d <= #[trigger] moment(i)
                <= trades[i].0.0 + d,
    ensures
        acc_at(sums(trades, b, d), key).lo.0 <= total(
            trades,
            key,
            |i: int| b.start < moment(i) <= b.end,
        ),
        total(trades, key, |i: int| b.start < moment(i) <= b.end) <= acc_at(
            sums(trades, b, d),
            key,
        ).hi.0,
{
    let inside = |i: int| b.start < moment(i) <= b.end;
    lemma_sums(trades, b, d, key);
    assert forall|i: int| 0 <= i < trades.len() && #[trigger] at_certain(trades, b, d)(
        i,
    ) implies inside(i) by {
        assert(trades[i].0.0 - d <= moment(i) <= trades[i].0.0 + d);
    }
    lemma_total_monotone(trades, key, at_certain(trades, b, d), inside);
    assert forall|i: int| 0 <= i < trades.len() && #[trigger] inside(i) implies at_possible(
        trades,
        b,
        d,
    )(i) by {
        assert(trades[i].0.0 - d <= moment(i) <= trades[i].0.0 + d);
    }
    lemma_total_monotone(trades, key, inside, at_possible(trades, b, d));
}

/// `exec_lo <= executed <= exec_hi`, where the batch still has to count its trades.
pub proof fn law_executed_bracketed(
    trades: Seq<((u64, u64), TradeRec)>,
    b: BatchState,
    d: u64,
    key: (Side, Px),
)
    requires
        nonnegative(trades),
        total(trades, key, |i: int| true) <= i64::MAX,
        forall|i: int|
            0 <= i < trades.len() && nominal(b, (#[trigger] trades[i]).0.0)
                ==> !trades[i].1.counted,
    ensures
        acc_at(sums(trades, b, d), key).lo.0 <= acc_at(sums(trades, b, d), key).executed.0
            <= acc_at(sums(trades, b, d), key).hi.0,
{
    lemma_sums(trades, b, d, key);
    assert forall|i: int| 0 <= i < trades.len() && #[trigger] at_certain(trades, b, d)(
        i,
    ) implies at_nominal(trades, b, d)(i) by {
        assert(nominal(b, trades[i].0.0));
    }
    lemma_total_monotone(trades, key, at_certain(trades, b, d), at_nominal(trades, b, d));
    assert forall|i: int| 0 <= i < trades.len() && #[trigger] at_nominal(trades, b, d)(
        i,
    ) implies at_possible(trades, b, d)(i) by {
    }
    lemma_total_monotone(trades, key, at_nominal(trades, b, d), at_possible(trades, b, d));
}

/// With any slack: executed is what traded by its reported time within the batch and no
/// other batch counted; the least is what traded within it by more than the slack, and the
/// most is what traded within it or closer to it than the slack.
pub proof fn law_executed_by_its_time(
    trades: Seq<((u64, u64), TradeRec)>,
    b: BatchState,
    d: u64,
    key: (Side, Px),
)
    requires
        nonnegative(trades),
        total(trades, key, |i: int| true) <= i64::MAX,
        forall|i: int| 0 <= i < trades.len() ==> (#[trigger] trades[i]).0.0 > 0,
    ensures
        ({
            let a = acc_at(sums(trades, b, d), key);
            &&& a.executed.0 == total(
                trades,
                key,
                |i: int| b.start < trades[i].0.0 <= b.end && !trades[i].1.counted,
            )
            &&& a.lo.0 == total(
                trades,
                key,
                |i: int| b.start + d < trades[i].0.0 && trades[i].0.0 + d <= b.end,
            )
            &&& a.hi.0 == total(
                trades,
                key,
                |i: int| b.start < trades[i].0.0 + d && trades[i].0.0 <= b.end + d,
            )
        }),
{
    lemma_sums(trades, b, d, key);
    let f = |i: int| b.start < trades[i].0.0 <= b.end && !trades[i].1.counted;
    assert forall|i: int| 0 <= i < trades.len() implies at_nominal(trades, b, d)(i)
        == #[trigger] f(i) by {
        assert(trades[i].0.0 > 0);
    }
    lemma_total_same(trades, key, at_nominal(trades, b, d), f);
    let g = |i: int| b.start + d < trades[i].0.0 && trades[i].0.0 + d <= b.end;
    assert forall|i: int| 0 <= i < trades.len() implies at_certain(trades, b, d)(i)
        == #[trigger] g(i) by {
        assert(trades[i].0.0 > 0);
    }
    lemma_total_same(trades, key, at_certain(trades, b, d), g);
    let h = |i: int| b.start < trades[i].0.0 + d && trades[i].0.0 <= b.end + d;
    assert forall|i: int| 0 <= i < trades.len() implies at_possible(trades, b, d)(i)
        == #[trigger] h(i) by {
        assert(trades[i].0.0 > 0);
    }
    lemma_total_same(trades, key, at_possible(trades, b, d), h);
}

/// With no slack the executed quantity is exactly what traded in the batch.
pub proof fn law_executed_exact(
    trades: Seq<((u64, u64), TradeRec)>,
    b: BatchState,
    key: (Side, Px),
)
    requires
        nonnegative(trades),
        total(trades, key, |i: int| true) <= i64::MAX,
        forall|i: int|
            0 <= i < trades.len() && nominal(b, (#[trigger] trades[i]).0.0)
                ==> !trades[i].1.counted,
    ensures
        ({
            let a = acc_at(sums(trades, b, 0), key);
            let traded = total(trades, key, |i: int| b.start < trades[i].0.0 <= b.end);
            a.executed.0 == traded && a.lo.0 == traded && a.hi.0 == traded
        }),
{
    lemma_sums(trades, b, 0, key);
    let inside = |i: int| b.start < trades[i].0.0 <= b.end;
    assert forall|i: int| 0 <= i < trades.len() implies at_nominal(trades, b, 0)(i)
        == #[trigger] inside(i) by {
        assert(nominal(b, trades[i].0.0) ==> !trades[i].1.counted);
    }
    lemma_total_same(trades, key, at_nominal(trades, b, 0), inside);
    assert forall|i: int| 0 <= i < trades.len() implies at_possible(trades, b, 0)(i)
        == #[trigger] inside(i) by {
    }
    lemma_total_same(trades, key, at_possible(trades, b, 0), inside);
    assert forall|i: int| 0 <= i < trades.len() implies at_certain(trades, b, 0)(i)
        == #[trigger] inside(i) by {
    }
    lemma_total_same(trades, key, at_certain(trades, b, 0), inside);
}

/// What really happened at a level within a batch: of what was visible at the
/// start, `consumed` was executed, `cancelled` was withdrawn and `survived` is
/// still there; `executed` is everything that traded, and `added` is what came.
pub struct Happened {
    /// Visible at the start and executed.
    pub consumed: int,
    /// Visible at the start and cancelled.
    pub cancelled: int,
    /// Visible at the start and still there at the end.
    pub survived: int,
    /// Everything executed, visible or not.
    pub executed: int,
    /// Visible at the end and not at the start.
    pub added: int,
}

/// The flow agrees with what happened.
pub open spec fn consistent(f: LevelFlow, h: Happened) -> bool {
    &&& 0 <= h.consumed <= h.executed
    &&& 0 <= h.cancelled
    &&& 0 <= h.survived
    &&& 0 <= h.added
    &&& f.q0.0 == h.consumed + h.cancelled + h.survived
    &&& f.q1.0 == h.survived + h.added
    &&& f.exec_lo.0 <= h.executed <= f.exec_hi.0
    &&& f.exec_hi.0 + f.q1.0 <= i64::MAX
}

/// The published figures of every flow are lower bounds of what happened: executed
/// that was not visible at the start, cancelled, and added.
pub proof fn law_bounds_hold<S>(
    s: AlignState<S>,
    b: BatchState,
    e: ((Side, Px), (Option<(Qty, Qty)>, Acc)),
    h: Happened,
)
    requires
        consistent(flow_of(s, b, e), h),
    ensures
        ({
            let f = flow_of(s, b, e);
            &&& f.no_visible_min.0 <= h.executed - h.consumed
            &&& f.cancelado_min.0 <= h.cancelled
            &&& f.agregado_min.0 <= h.added
            &&& b.contaminated is Some ==> !f.clean && f.no_visible_min.0 == 0
                && f.cancelado_min.0 == 0 && f.agregado_min.0 == 0
        }),
{
}

proof fn lemma_all_keys(changes: Seq<((Side, Px), (Qty, Qty))>, acc: Seq<((Side, Px), Acc)>)
    requires
        sorted(changes),
        sorted(acc),
    ensures
        sorted(all_keys(changes, acc)),
        forall|key: (Side, Px)|
            #![trigger find(all_keys(changes, acc), key)]
            find(all_keys(changes, acc), key) == (if holds(changes, key) || holds(acc, key) {
                Some((find(changes, key), acc_at(acc, key)))
            } else {
                None
            }),
    decreases acc.len(),
{
    if acc.len() == 0 {
        let k = changed_keys(changes);
        assert forall|i: int, j: int| 0 <= i < j < k.len() implies key_lt(
            #[trigger] k[i].0,
            #[trigger] k[j].0,
        ) by {
            assert(k[i].0 == changes[i].0 && k[j].0 == changes[j].0);
        }
        assert forall|key: (Side, Px)|
            #![trigger find(k, key)]
            find(k, key) == (if holds(changes, key) || holds(acc, key) {
                Some((find(changes, key), acc_at(acc, key)))
            } else {
                None
            }) by {
            if holds(changes, key) {
                let i = rank(changes, key) as int;
                assert(k[i].0 == changes[i].0);
                lemma_entry_found(k, i);
            }
            if holds(k, key) {
                let i = rank(k, key) as int;
                assert(k[i].0 == changes[i].0);
                lemma_entry_found(changes, i);
            }
        }
    } else {
        let u = acc.drop_last();
        lemma_drop_last(acc);
        lemma_all_keys(changes, u);
        let s = all_keys(changes, u);
        let (last, a) = acc.last();
        let v = (
            match find(s, last) {
                Some(e) => e.0,
                None => None,
            },
            a,
        );
        lemma_put(s, last, v);
        assert(find(u, last) is None);
        assert forall|key: (Side, Px)|
            #![trigger find(all_keys(changes, acc), key)]
            find(all_keys(changes, acc), key) == (if holds(changes, key) || holds(acc, key) {
                Some((find(changes, key), acc_at(acc, key)))
            } else {
                None
            }) by {
            assert(find(put(s, last, v), key) == (if key == last {
                Some(v)
            } else {
                find(s, key)
            }));
            if key == last {
                assert(find(s, last) == (if holds(changes, last) || holds(u, last) {
                    Some((find(changes, last), acc_at(u, last)))
                } else {
                    None
                }));
            } else {
                assert(find(u, key) == find(acc, key));
            }
        }
    }
}

/// The sums hold an entry for every level that may have traded in the batch.
proof fn lemma_sums_hold(trades: Seq<((u64, u64), TradeRec)>, b: BatchState, d: u64, i: int)
    requires
        0 <= i < trades.len(),
        possible(b, d, trades[i].0.0),
    ensures
        holds(sums(trades, b, d), trades[i].1.key),
    decreases trades.len(),
{
    lemma_sums_sorted(trades.drop_last(), b, d);
    let s = sums(trades.drop_last(), b, d);
    let ((ts, id), t) = trades.last();
    let a = acc_at(s, t.key);
    let v = acc_next(a, b, d, ts, t);
    lemma_put(s, t.key, v);
    if i < trades.len() - 1 {
        assert(trades.drop_last()[i] == trades[i]);
        lemma_sums_hold(trades.drop_last(), b, d, i);
    }
    assert(find(put(s, t.key, v), trades[i].1.key) == (if trades[i].1.key == t.key {
        Some(v)
    } else {
        find(s, trades[i].1.key)
    }));
}

proof fn lemma_sums_sorted(trades: Seq<((u64, u64), TradeRec)>, b: BatchState, d: u64)
    ensures
        sorted(sums(trades, b, d)),
    decreases trades.len(),
{
    if trades.len() > 0 {
        lemma_sums_sorted(trades.drop_last(), b, d);
        let s = sums(trades.drop_last(), b, d);
        let ((ts, id), t) = trades.last();
        lemma_put(s, t.key, acc_next(acc_at(s, t.key), b, d, ts, t));
    }
}

/// Completeness: every level that changed in the batch, and every level at which a
/// trade may lie in it, has exactly one flow, with the level's own quantities and
/// sums; and flows come in order of side and price.
pub proof fn law_flows_complete<S>(s: AlignState<S>, b: BatchState, key: (Side, Px))
    requires
        sorted(b.changes),
        holds(b.changes, key) || exists|i: int|
            0 <= i < s.trades.len() && (#[trigger] s.trades[i]).1.key == key && possible(
                b,
                s.cfg.boundary_slack_ms,
                s.trades[i].0.0,
            ),
    ensures
        exists|m: int|
            0 <= m < flows_of(s, b).len() && #[trigger] flows_of(s, b)[m] == flow_of(
                s,
                b,
                (
                    key,
                    (
                        find(b.changes, key),
                        acc_at(sums(s.trades, b, s.cfg.boundary_slack_ms), key),
                    ),
                ),
            ),
        sorted(all_keys(b.changes, sums(s.trades, b, s.cfg.boundary_slack_ms))),
{
    let d = s.cfg.boundary_slack_ms;
    let acc = sums(s.trades, b, d);
    lemma_sums_sorted(s.trades, b, d);
    lemma_all_keys(b.changes, acc);
    if !holds(b.changes, key) {
        let i = choose|i: int|
            0 <= i < s.trades.len() && (#[trigger] s.trades[i]).1.key == key && possible(
                b,
                d,
                s.trades[i].0.0,
            );
        lemma_sums_hold(s.trades, b, d, i);
    }
    let keys = all_keys(b.changes, acc);
    assert(find(keys, key) == Some((find(b.changes, key), acc_at(acc, key))));
    let m = rank(keys, key) as int;
    assert(keys[m].0 == key);
    assert(flows_of(s, b)[m] == flow_of(s, b, keys[m]));
}

/// Each flow carries the changes and the sums of its own level.
pub proof fn lemma_flow_entry<S>(s: AlignState<S>, b: BatchState, m: int)
    requires
        sorted(b.changes),
        0 <= m < flows_of(s, b).len(),
    ensures
        ({
            let acc = sums(s.trades, b, s.cfg.boundary_slack_ms);
            let e = all_keys(b.changes, acc)[m];
            &&& e.1.0 == find(b.changes, e.0)
            &&& e.1.1 == acc_at(acc, e.0)
            &&& flows_of(s, b)[m] == flow_of(s, b, e)
        }),
{
    let d = s.cfg.boundary_slack_ms;
    let acc = sums(s.trades, b, d);
    lemma_sums_sorted(s.trades, b, d);
    lemma_all_keys(b.changes, acc);
    let keys = all_keys(b.changes, acc);
    lemma_entry_found(keys, m);
    assert(find(keys, keys[m].0) == Some(keys[m].1));
}

} // verus!

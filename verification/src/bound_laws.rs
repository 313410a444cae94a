//! What a flow says of its level: the bounds, the trades that make it and their totals.

use crate::align::{
    acc_next, close_next, flows_of, fed_flows, on_trade_next, possible, rec_of, sums, AlignState,
    BatchInfo, BatchState, FlowSink, LevelFlow, TradeRec,
};
use crate::event::{AggTrade, Aggressor, Side};
use crate::fixed::Px;
use crate::flow::{agg_next, flow_show, FlowAgg, FlowAggState, ObsState};
use crate::flow_laws::{acc_at, lemma_flow_entry};
use crate::ordmap::{find, holds, lemma_put, put, sorted};
use crate::sums::{lemma_sum_counts, lemma_sum_positive, lemma_sum_same, sum_upto};
use vstd::prelude::*;

verus! {

/// The figures of a flow, by arithmetic on its own fields. Of a clean batch: what was
/// executed surely within it beyond what was visible is not visible; of what was visible
/// and is not any more, what executions cannot explain was cancelled; and what the level
/// gained was added. Of a contaminated batch nothing is claimed.
pub proof fn law_bounds_are_exact<S>(s: AlignState<S>, b: BatchState, m: int)
    requires
        0 <= m < flows_of(s, b).len(),
    ensures
        ({
            let f = flows_of(s, b)[m];
            let hidden = f.exec_lo.0 - f.q0.0;
            let gone = f.q0.0 - f.exec_hi.0 - f.q1.0;
            let gained = f.q1.0 - f.q0.0;
            &&& f.clean == (b.contaminated is None)
            &&& f.clean && hidden <= 0 ==> f.no_visible_min.0 == 0
            &&& f.clean && 0 < hidden <= i64::MAX ==> f.no_visible_min.0 == hidden
            &&& f.clean && i64::MIN <= f.exec_hi.0 + f.q1.0 <= i64::MAX && gone <= 0
                ==> f.cancelado_min.0 == 0
            &&& f.clean && i64::MIN <= f.exec_hi.0 + f.q1.0 <= i64::MAX && 0 < gone <= i64::MAX
                ==> f.cancelado_min.0 == gone
            &&& f.clean && gained <= 0 ==> f.agregado_min.0 == 0
            &&& f.clean && 0 < gained <= i64::MAX ==> f.agregado_min.0 == gained
            &&& !f.clean ==> f.no_visible_min.0 == 0 && f.cancelado_min.0 == 0
                && f.agregado_min.0 == 0
        }),
{
}

/// The bounds of a clean flow are the best that its quantities allow: some history of the
/// level agrees with them and attains each.
pub proof fn law_bounds_are_attained<S>(s: AlignState<S>, b: BatchState, m: int)
    requires
        0 <= m < flows_of(s, b).len(),
        b.contaminated is None,
        ({
            let f = flows_of(s, b)[m];
            0 <= f.q0.0 && 0 <= f.q1.0 && 0 <= f.exec_lo.0 <= f.exec_hi.0 && f.exec_hi.0 + f.q1.0
                <= i64::MAX
        }),
    ensures
        ({
            let f = flows_of(s, b)[m];
            &&& exists|h: crate::flow_laws::Happened| #[trigger]
                crate::flow_laws::consistent(f, h) && h.executed - h.consumed
                    == f.no_visible_min.0
            &&& exists|h: crate::flow_laws::Happened| #[trigger]
                crate::flow_laws::consistent(f, h) && h.cancelled == f.cancelado_min.0
            &&& exists|h: crate::flow_laws::Happened| #[trigger]
                crate::flow_laws::consistent(f, h) && h.added == f.agregado_min.0
        }),
{
    let f = flows_of(s, b)[m];
    let q0 = f.q0.0 as int;
    let q1 = f.q1.0 as int;
    let lo = f.exec_lo.0 as int;
    let hi = f.exec_hi.0 as int;
    let eaten = if lo < q0 {
        lo
    } else {
        q0
    };
    let h1 = crate::flow_laws::Happened {
        consumed: eaten,
        cancelled: q0 - eaten,
        survived: 0,
        executed: lo,
        added: q1,
    };
    assert(crate::flow_laws::consistent(f, h1));
    let kept = if q1 < q0 {
        q1
    } else {
        q0
    };
    let most = if hi < q0 - kept {
        hi
    } else {
        q0 - kept
    };
    let h2 = crate::flow_laws::Happened {
        consumed: most,
        cancelled: q0 - kept - most,
        survived: kept,
        executed: hi,
        added: q1 - kept,
    };
    assert(crate::flow_laws::consistent(f, h2));
}

/// A flow is of its own batch and epoch, and of a level that changed or may have traded in
/// it; a level that did not change has the same quantity before and after.
pub proof fn law_flow_is_of_its_batch<S>(s: AlignState<S>, b: BatchState, m: int)
    requires
        sorted(b.changes),
        0 <= m < flows_of(s, b).len(),
    ensures
        ({
            let f = flows_of(s, b)[m];
            let key = (f.side, f.px);
            &&& f.epoch == s.epoch
            &&& f.start_ts_ms == b.start
            &&& f.end_ts_ms == b.end
            &&& find(b.changes, key) matches Some(qq) ==> f.q0 == qq.0 && f.q1 == qq.1
            &&& find(b.changes, key) is None ==> f.q0 == f.q1
        }),
{
    lemma_flow_entry(s, b, m);
}

/// A trade eats the side that its aggressor hits: a seller the bids, a buyer the asks, at
/// its price. Its quantity is the normal one and the one against hidden retail orders, and
/// it holds as many fills as it has ids.
pub proof fn law_trade_eats_the_other_side(t: AggTrade)
    ensures
        t.aggressor == Aggressor::Sell ==> rec_of(t).key == (Side::Bid, t.px),
        t.aggressor == Aggressor::Buy ==> rec_of(t).key == (Side::Ask, t.px),
        t.qty_normal is None ==> rec_of(t).qty_n == t.qty && rec_of(t).rpi.0 == 0,
        t.qty_normal matches Some(n) ==> rec_of(t).qty_n == n && (0 <= n.0 <= t.qty.0
            ==> rec_of(t).qty_n.0 + rec_of(t).rpi.0 == t.qty.0),
        t.first_trade_id <= t.last_trade_id && t.last_trade_id - t.first_trade_id < u64::MAX
            ==> rec_of(t).fills == t.last_trade_id - t.first_trade_id + 1,
        !rec_of(t).counted,
{
}

/// The trades of a level that a batch counts: nominally within it, and in none before.
pub open spec fn falls_in(
    trades: Seq<((u64, u64), TradeRec)>,
    b: BatchState,
    key: (Side, Px),
    i: int,
) -> bool {
    trades[i].1.key == key && b.start < trades[i].0.0 <= b.end && !trades[i].1.counted
}

/// What the trades of a level that a batch counts have of something, in all.
pub open spec fn amount(
    trades: Seq<((u64, u64), TradeRec)>,
    b: BatchState,
    key: (Side, Px),
    of: spec_fn(TradeRec) -> int,
) -> int {
    sum_upto(
        trades.len() as int,
        |i: int|
            if falls_in(trades, b, key, i) {
                of(trades[i].1)
            } else {
                0
            },
    )
}

proof fn lemma_amount_last(
    trades: Seq<((u64, u64), TradeRec)>,
    b: BatchState,
    key: (Side, Px),
    of: spec_fn(TradeRec) -> int,
)
    requires
        trades.len() > 0,
    ensures
        amount(trades, b, key, of) == amount(trades.drop_last(), b, key, of) + (if falls_in(
            trades,
            b,
            key,
            trades.len() - 1,
        ) {
            of(trades.last().1)
        } else {
            0
        }),
{
    let u = trades.drop_last();
    let f = |i: int|
        if falls_in(trades, b, key, i) {
            of(trades[i].1)
        } else {
            0
        };
    let g = |i: int|
        if falls_in(u, b, key, i) {
            of(u[i].1)
        } else {
            0
        };
    assert forall|i: int| 0 <= i < u.len() implies f(i) == #[trigger] g(i) by {
        assert(u[i] == trades[i]);
    }
    lemma_sum_same(u.len() as int, f, g);
    assert(sum_upto(trades.len() as int, f) == sum_upto(trades.len() - 1, f) + f(
        trades.len() - 1,
    ));
}

proof fn lemma_counts(
    trades: Seq<((u64, u64), TradeRec)>,
    b: BatchState,
    d: u64,
    key: (Side, Px),
)
    requires
        forall|i: int| 0 <= i < trades.len() ==> 0 <= (#[trigger] trades[i]).1.rpi.0,
        trades.len() <= u64::MAX,
        amount(trades, b, key, |t: TradeRec| t.rpi.0 as int) <= i64::MAX,
        amount(trades, b, key, |t: TradeRec| t.fills as int) <= u64::MAX,
    ensures
        sorted(sums(trades, b, d)),
        acc_at(sums(trades, b, d), key).rpi.0 == amount(
            trades,
            b,
            key,
            |t: TradeRec| t.rpi.0 as int,
        ),
        acc_at(sums(trades, b, d), key).fills == amount(
            trades,
            b,
            key,
            |t: TradeRec| t.fills as int,
        ),
        acc_at(sums(trades, b, d), key).trades == amount(trades, b, key, |t: TradeRec| 1int),
        0 <= amount(trades, b, key, |t: TradeRec| t.rpi.0 as int),
        0 <= amount(trades, b, key, |t: TradeRec| t.fills as int),
        0 <= amount(trades, b, key, |t: TradeRec| 1int) <= trades.len(),
    decreases trades.len(),
{
    let r = |t: TradeRec| t.rpi.0 as int;
    let fl = |t: TradeRec| t.fills as int;
    let one = |t: TradeRec| 1int;
    if trades.len() > 0 {
        let u = trades.drop_last();
        let n = trades.len() - 1;
        assert(trades[n] == trades.last());
        lemma_amount_last(trades, b, key, r);
        lemma_amount_last(trades, b, key, fl);
        lemma_amount_last(trades, b, key, one);
        assert forall|i: int| 0 <= i < u.len() implies 0 <= (#[trigger] u[i]).1.rpi.0 by {
            assert(u[i] == trades[i]);
        }
        lemma_counts(u, b, d, key);
        let s = sums(u, b, d);
        let ((ts, id), t) = trades.last();
        if possible(b, d, ts) {
            let a = acc_at(s, t.key);
            lemma_put(s, t.key, acc_next(a, b, d, ts, t));
            assert(find(put(s, t.key, acc_next(a, b, d, ts, t)), key) == (if key == t.key {
                Some(acc_next(a, b, d, ts, t))
            } else {
                find(s, key)
            }));
        }
    }
}

/// A flow counts the trades of its level: how many they are, how many fills they hold and
/// how much of them was against hidden retail orders.
pub proof fn law_flow_counts_its_trades<S>(s: AlignState<S>, b: BatchState, m: int)
    requires
        sorted(b.changes),
        0 <= m < flows_of(s, b).len(),
        forall|i: int| 0 <= i < s.trades.len() ==> 0 <= (#[trigger] s.trades[i]).1.rpi.0,
        s.trades.len() <= u64::MAX,
        ({
            let f = flows_of(s, b)[m];
            let key = (f.side, f.px);
            &&& amount(s.trades, b, key, |t: TradeRec| t.rpi.0 as int) <= i64::MAX
            &&& amount(s.trades, b, key, |t: TradeRec| t.fills as int) <= u64::MAX
        }),
    ensures
        ({
            let f = flows_of(s, b)[m];
            let key = (f.side, f.px);
            &&& f.n_trades == amount(s.trades, b, key, |t: TradeRec| 1int)
            &&& f.n_fills == amount(s.trades, b, key, |t: TradeRec| t.fills as int)
            &&& f.exec_rpi.0 == amount(s.trades, b, key, |t: TradeRec| t.rpi.0 as int)
        }),
{
    lemma_flow_entry(s, b, m);
    let f = flows_of(s, b)[m];
    lemma_counts(s.trades, b, s.cfg.boundary_slack_ms, (f.side, f.px));
}

/// Which trades do not reach the batches, and under which account: one that comes while
/// the book is not synchronised, one of a time that is final, and one that is there
/// already. No other account changes, and no trade held.
pub proof fn law_refused_trades_are_told_apart<K: FlowSink>(s: AlignState<K::State>, t: AggTrade)
    requires
        s.stats.trades_rx < u64::MAX,
        s.stats.syncing < u64::MAX,
        s.stats.late < u64::MAX,
        s.stats.duplicate < u64::MAX,
    ensures
        ({
            let n = on_trade_next::<K>(s, t);
            let late = s.live && 0 < s.finalized_until && t.trade_ts_ms <= s.finalized_until;
            let again = s.live && !late && holds(s.trades, (t.trade_ts_ms, t.agg_id));
            &&& !s.live ==> n.stats.syncing == s.stats.syncing + 1 && n.stats.late == s.stats.late
                && n.stats.duplicate == s.stats.duplicate && n.trades == s.trades && n.lines
                == s.lines
            &&& late ==> n.stats.late == s.stats.late + 1 && n.stats.syncing == s.stats.syncing
                && n.stats.duplicate == s.stats.duplicate && n.trades == s.trades
            &&& again ==> n.stats.duplicate == s.stats.duplicate + 1 && n.stats.late
                == s.stats.late && n.stats.syncing == s.stats.syncing && n.trades == s.trades
            &&& !s.live || late || again ==> n.stats.trades_rx == s.stats.trades_rx + 1
                && n.batches == s.batches && n.sink == s.sink && n.uncounted == s.uncounted
        }),
{
}

/// Closing a batch tells the consumer its flows and then its summary: the epoch, the
/// interval, how many levels changed, the trades assigned and why it makes no claim.
pub proof fn law_batch_is_summed_up<K: FlowSink>(s: AlignState<K::State>) -> (info: BatchInfo)
    requires
        s.batches.len() > 0,
    ensures
        close_next::<K>(s).sink == K::batch_next(
            fed_flows::<K>(
                s.sink,
                flows_of(AlignState { batches: s.batches.skip(1), ..s }, s.batches[0]),
            ),
            info,
        ),
        info.epoch == s.epoch,
        info.start_ts_ms == s.batches[0].start,
        info.end_ts_ms == s.batches[0].end,
        info.contaminated == s.batches[0].contaminated,
        s.batches[0].changes.len() <= u32::MAX ==> info.levels_changed
            == s.batches[0].changes.len(),
        s.trades.len() <= u64::MAX ==> info.trades == sum_upto(
            s.trades.len() as int,
            |i: int|
                if s.batches[0].start < s.trades[i].0.0 <= s.batches[0].end
                    && !s.trades[i].1.counted {
                    1int
                } else {
                    0
                },
        ),
{
    let b = s.batches[0];
    let d = s.cfg.boundary_slack_ms;
    crate::align::lemma_pruned(crate::align::unpruned::<K>(s));
    lemma_counted(s.trades, b, d);
    let f = |i: int|
        if b.start < s.trades[i].0.0 <= b.end && !s.trades[i].1.counted {
            1int
        } else {
            0
        };
    lemma_sum_counts(s.trades.len() as int, f);
    BatchInfo {
        epoch: s.epoch,
        start_ts_ms: b.start,
        end_ts_ms: b.end,
        levels_changed: crate::num::clamp(0, b.changes.len() as int, u32::MAX as int) as u32,
        trades: crate::num::clamp_u64(
            crate::align::n_counted(s.trades, b, d) as int,
        ) as u64,
        contaminated: b.contaminated,
    }
}

proof fn lemma_counted(trades: Seq<((u64, u64), TradeRec)>, b: BatchState, d: u64)
    ensures
        crate::align::n_counted(trades, b, d) == sum_upto(
            trades.len() as int,
            |i: int|
                if b.start < trades[i].0.0 <= b.end && !trades[i].1.counted {
                    1int
                } else {
                    0
                },
        ),
    decreases trades.len(),
{
    let f = |i: int|
        if b.start < trades[i].0.0 <= b.end && !trades[i].1.counted {
            1int
        } else {
            0
        };
    if trades.len() > 0 {
        let u = trades.drop_last();
        lemma_counted(u, b, d);
        let g = |i: int|
            if b.start < u[i].0.0 <= b.end && !u[i].1.counted {
                1int
            } else {
                0
            };
        assert forall|i: int| 0 <= i < u.len() implies f(i) == #[trigger] g(i) by {
            assert(u[i] == trades[i]);
        }
        lemma_sum_same(u.len() as int, f, g);
        assert(trades.last() == trades[trades.len() - 1]);
    }
}

/// The flows that count in the totals of a side.
pub open spec fn on_side(flows: Seq<LevelFlow>, side: Side, i: int) -> bool {
    flows[i].clean && flows[i].side == side
}

/// What the clean flows of a side have of something, in all.
pub open spec fn side_total(
    flows: Seq<LevelFlow>,
    side: Side,
    of: spec_fn(LevelFlow) -> int,
) -> int {
    sum_upto(
        flows.len() as int,
        |i: int|
            if on_side(flows, side, i) {
                of(flows[i])
            } else {
                0
            },
    )
}

proof fn lemma_side_last(flows: Seq<LevelFlow>, side: Side, of: spec_fn(LevelFlow) -> int)
    requires
        flows.len() > 0,
    ensures
        side_total(flows, side, of) == side_total(flows.drop_last(), side, of) + (if on_side(
            flows,
            side,
            flows.len() - 1,
        ) {
            of(flows.last())
        } else {
            0
        }),
{
    let u = flows.drop_last();
    let f = |i: int|
        if on_side(flows, side, i) {
            of(flows[i])
        } else {
            0
        };
    let g = |i: int|
        if on_side(u, side, i) {
            of(u[i])
        } else {
            0
        };
    assert forall|i: int| 0 <= i < u.len() implies f(i) == #[trigger] g(i) by {
        assert(u[i] == flows[i]);
    }
    lemma_sum_same(u.len() as int, f, g);
    assert(sum_upto(flows.len() as int, f) == sum_upto(flows.len() - 1, f) + f(flows.len() - 1));
}

proof fn lemma_side_positive(flows: Seq<LevelFlow>, side: Side, of: spec_fn(LevelFlow) -> int)
    requires
        forall|i: int| 0 <= i < flows.len() ==> 0 <= of(#[trigger] flows[i]),
    ensures
        0 <= side_total(flows, side, of),
{
    let f = |i: int|
        if on_side(flows, side, i) {
            of(flows[i])
        } else {
            0
        };
    assert forall|i: int| 0 <= i < flows.len() implies 0 <= #[trigger] f(i) by {
        assert(0 <= of(flows[i]));
    }
    lemma_sum_positive(flows.len() as int, f);
}

/// No figure of a flow is negative.
pub open spec fn all_positive(flows: Seq<LevelFlow>) -> bool {
    forall|i: int|
        0 <= i < flows.len() ==> 0 <= (#[trigger] flows[i]).executed.0 && 0
            <= flows[i].no_visible_min.0 && 0 <= flows[i].cancelado_min.0 && 0
            <= flows[i].exec_rpi.0
}

/// The totals fit.
pub open spec fn totals_fit(flows: Seq<LevelFlow>) -> bool {
    &&& flows.len() <= u64::MAX
    &&& side_total(flows, Side::Bid, |f: LevelFlow| f.executed.0 as int) <= i64::MAX
    &&& side_total(flows, Side::Ask, |f: LevelFlow| f.executed.0 as int) <= i64::MAX
    &&& side_total(flows, Side::Bid, |f: LevelFlow| f.no_visible_min.0 as int) <= i64::MAX
    &&& side_total(flows, Side::Ask, |f: LevelFlow| f.no_visible_min.0 as int) <= i64::MAX
    &&& side_total(flows, Side::Bid, |f: LevelFlow| f.cancelado_min.0 as int) <= i64::MAX
    &&& side_total(flows, Side::Ask, |f: LevelFlow| f.cancelado_min.0 as int) <= i64::MAX
    &&& side_total(flows, Side::Bid, |f: LevelFlow| f.exec_rpi.0 as int) + side_total(
        flows,
        Side::Ask,
        |f: LevelFlow| f.exec_rpi.0 as int,
    ) <= i64::MAX
}

/// The totals of the summary are those of the clean flows it was told, each on its own
/// side: what was executed against bids and against asks, the sums of the bounds, and what
/// was against hidden retail orders on both.
pub proof fn law_totals_add_up(flows: Seq<LevelFlow>)
    requires
        all_positive(flows),
        totals_fit(flows),
    ensures
        ({
            let t = fed_flows::<FlowAgg>(FlowAggState::zero(), flows).totals;
            &&& t.exec_bid.0 == side_total(flows, Side::Bid, |f: LevelFlow| f.executed.0 as int)
            &&& t.exec_ask.0 == side_total(flows, Side::Ask, |f: LevelFlow| f.executed.0 as int)
            &&& t.no_visible_min_bid.0 == side_total(
                flows,
                Side::Bid,
                |f: LevelFlow| f.no_visible_min.0 as int,
            )
            &&& t.no_visible_min_ask.0 == side_total(
                flows,
                Side::Ask,
                |f: LevelFlow| f.no_visible_min.0 as int,
            )
            &&& t.cancelado_min_bid.0 == side_total(
                flows,
                Side::Bid,
                |f: LevelFlow| f.cancelado_min.0 as int,
            )
            &&& t.cancelado_min_ask.0 == side_total(
                flows,
                Side::Ask,
                |f: LevelFlow| f.cancelado_min.0 as int,
            )
            &&& t.exec_rpi.0 == side_total(
                flows,
                Side::Bid,
                |f: LevelFlow| f.exec_rpi.0 as int,
            ) + side_total(flows, Side::Ask, |f: LevelFlow| f.exec_rpi.0 as int)
            &&& t.flows_clean == side_total(flows, Side::Bid, |f: LevelFlow| 1int) + side_total(
                flows,
                Side::Ask,
                |f: LevelFlow| 1int,
            )
            &&& t.flows_clean <= flows.len()
        }),
    decreases flows.len(),
{
    let ex = |f: LevelFlow| f.executed.0 as int;
    let nv = |f: LevelFlow| f.no_visible_min.0 as int;
    let cm = |f: LevelFlow| f.cancelado_min.0 as int;
    let rp = |f: LevelFlow| f.exec_rpi.0 as int;
    let one = |f: LevelFlow| 1int;
    if flows.len() > 0 {
        let u = flows.drop_last();
        assert(flows.last() == flows[flows.len() - 1]);
        assert forall|i: int| 0 <= i < u.len() implies 0 <= (#[trigger] u[i]).executed.0 && 0
            <= u[i].no_visible_min.0 && 0 <= u[i].cancelado_min.0 && 0 <= u[i].exec_rpi.0 by {
            assert(u[i] == flows[i]);
        }
        lemma_side_last(flows, Side::Bid, ex);
        lemma_side_last(flows, Side::Ask, ex);
        lemma_side_last(flows, Side::Bid, nv);
        lemma_side_last(flows, Side::Ask, nv);
        lemma_side_last(flows, Side::Bid, cm);
        lemma_side_last(flows, Side::Ask, cm);
        lemma_side_last(flows, Side::Bid, rp);
        lemma_side_last(flows, Side::Ask, rp);
        lemma_side_last(flows, Side::Bid, one);
        lemma_side_last(flows, Side::Ask, one);
        lemma_side_positive(u, Side::Bid, ex);
        lemma_side_positive(u, Side::Ask, ex);
        lemma_side_positive(u, Side::Bid, nv);
        lemma_side_positive(u, Side::Ask, nv);
        lemma_side_positive(u, Side::Bid, cm);
        lemma_side_positive(u, Side::Ask, cm);
        lemma_side_positive(u, Side::Bid, rp);
        lemma_side_positive(u, Side::Ask, rp);
        law_totals_add_up(u);
    }
}

/// Notable flows, and no others, are kept, in order, and the oldest leave beyond fifty: a
/// clean flow with something that was not visible or was cancelled is the newest one after
/// it comes, and the others stay behind it.
pub proof fn law_notable_flows_are_kept(s: FlowAggState, f: LevelFlow)
    requires
        s.recent.len() <= 50,
    ensures
        ({
            let n = agg_next(s, f);
            let kept = f.clean && (f.no_visible_min.0 > 0 || f.cancelado_min.0 > 0);
            &&& kept ==> n.recent.len() > 0 && n.recent.last() == f
            &&& kept && s.recent.len() < 50 ==> n.recent.drop_last() == s.recent
            &&& kept && s.recent.len() == 50 ==> n.recent.drop_last() == s.recent.skip(1)
            &&& !kept ==> n.recent == s.recent
            &&& n.recent.len() <= 50
            &&& n.last_batch == s.last_batch
        }),
{
}

/// The view of the flows is that of the observer: its counters, what is open and held, what
/// is final, the totals and the recent flows, and the ten last walls, newest first. Trades
/// are unaccounted for as many as were received and are neither settled nor held.
pub proof fn law_flow_view_tells_the_observer(s: ObsState)
    ensures
        ({
            let v = flow_show(s);
            let w = s.sink.1.walls;
            let c = s.stats;
            let settled = c.aligned + c.contaminated + c.late + c.syncing + c.overflow
                + c.invalidated + c.duplicate;
            &&& v.stats == c
            &&& i64::MIN <= c.trades_rx - settled - s.uncounted <= i64::MAX ==> v.unaccounted
                == c.trades_rx - settled - s.uncounted
            &&& v.open_batches == s.batches.len()
            &&& v.buffered_trades == s.trades.len()
            &&& v.finalized_until_ms == s.finalized_until
            &&& v.totals == s.sink.0.totals
            &&& v.last_batch == s.sink.0.last_batch
            &&& v.recent == s.sink.0.recent
            &&& v.walls == s.sink.1.wall_stats
            &&& v.recent_walls.len() == (if w.len() < 10 {
                w.len() as int
            } else {
                10
            })
            &&& forall|i: int|
                0 <= i < v.recent_walls.len() ==> #[trigger] v.recent_walls[i] == w[w.len() - 1
                    - i]
        }),
{
}

} // verus!

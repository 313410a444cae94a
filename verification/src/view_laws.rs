//! What the published view of a market says of its engine.

use crate::book_laws::law_best_is_best;
use crate::engine::{
    handle_next, latency_of, noted, off_step, published, tick_next, trade_next, traded, EngineMsg,
    EngineState, Io,
};
use crate::event::{AggTrade, Aggressor, DepthDiff, DepthSnapshot, Level, MarketEvent};
use crate::fixed::Px;
use crate::flow::Obs;
use crate::instrument::InstrumentSpec;
use crate::ordmap::key_lt;
use crate::rule::SeqRule;
use crate::sums::sum_upto;
use crate::sync::{on_diff_next, on_snapshot_next, Phase};
use crate::view::TradeView;
use vstd::prelude::*;

verus! {

/// While the book is live the tops list its best levels, best first: bids from the highest
/// down and asks from the lowest up, each with the quantity of the book, as many as asked
/// for, and no level left out is better than one listed. They start with the best prices.
pub proof fn law_tops_are_the_best<R>(s: EngineState<R>, io: Io)
    requires
        s.sync.phase == Phase::Live,
        s.sync.book.wf(),
        s.sync.book.bids.len() <= usize::MAX,
        s.sync.book.asks.len() <= usize::MAX,
    ensures
        ({
            let v = published(s, io);
            let b = s.sync.book;
            let n = s.cfg.top_levels;
            let nb = v.top_bids.len() as int;
            let na = v.top_asks.len() as int;
            &&& nb == (if b.bids.len() < n {
                b.bids.len() as int
            } else {
                n as int
            })
            &&& na == (if b.asks.len() < n {
                b.asks.len() as int
            } else {
                n as int
            })
            &&& forall|i: int, j: int|
                #![trigger v.top_bids[i], v.top_bids[j]]
                0 <= i < j < nb ==> v.top_bids[j].px.0 < v.top_bids[i].px.0
            &&& forall|i: int, j: int|
                #![trigger v.top_asks[i], v.top_asks[j]]
                0 <= i < j < na ==> v.top_asks[i].px.0 < v.top_asks[j].px.0
            &&& forall|i: int|
                0 <= i < nb ==> crate::book_laws::has_level(
                    b.bids,
                    (#[trigger] v.top_bids[i]).px,
                    v.top_bids[i].qty,
                )
            &&& forall|i: int|
                0 <= i < na ==> crate::book_laws::has_level(
                    b.asks,
                    (#[trigger] v.top_asks[i]).px,
                    v.top_asks[i].qty,
                )
            &&& forall|k: int, i: int|
                #![trigger b.bids[k], v.top_bids[i]]
                0 <= k < b.bids.len() && 0 <= i < nb ==> b.bids[k].0.0 <= v.top_bids[i].px.0
                    || exists|j: int| 0 <= j < nb && (#[trigger] v.top_bids[j]).px == b.bids[k].0
            &&& forall|k: int, i: int|
                #![trigger b.asks[k], v.top_asks[i]]
                0 <= k < b.asks.len() && 0 <= i < na ==> v.top_asks[i].px.0 <= b.asks[k].0.0
                    || exists|j: int| 0 <= j < na && (#[trigger] v.top_asks[j]).px == b.asks[k].0
            &&& nb > 0 ==> v.best_bid == Some(v.top_bids[0])
            &&& na > 0 ==> v.best_ask == Some(v.top_asks[0])
            &&& v.best_bid is None <==> b.bids.len() == 0
            &&& v.best_ask is None <==> b.asks.len() == 0
            &&& v.levels.0 == b.bids.len()
            &&& v.levels.1 == b.asks.len()
        }),
{
    let v = published(s, io);
    let b = s.sync.book;
    let nb = v.top_bids.len() as int;
    let na = v.top_asks.len() as int;
    let lb = b.bids.len() as int;
    assert forall|i: int, j: int| 0 <= i < j < b.bids.len() implies (#[trigger] b.bids[i]).0.0 < (
    #[trigger] b.bids[j]).0.0 by {
        assert(key_lt(b.bids[i].0, b.bids[j].0));
    }
    assert forall|i: int, j: int| 0 <= i < j < b.asks.len() implies (#[trigger] b.asks[i]).0.0 < (
    #[trigger] b.asks[j]).0.0 by {
        assert(key_lt(b.asks[i].0, b.asks[j].0));
    }
    assert forall|i: int| 0 <= i < nb implies (#[trigger] v.top_bids[i]).px == b.bids[lb - 1 - i].0
        && v.top_bids[i].qty == b.bids[lb - 1 - i].1 by {}
    assert forall|i: int| 0 <= i < nb implies crate::book_laws::has_level(
        b.bids,
        (#[trigger] v.top_bids[i]).px,
        v.top_bids[i].qty,
    ) by {
        assert(b.bids[lb - 1 - i] == (v.top_bids[i].px, v.top_bids[i].qty));
    }
    assert forall|i: int| 0 <= i < na implies crate::book_laws::has_level(
        b.asks,
        (#[trigger] v.top_asks[i]).px,
        v.top_asks[i].qty,
    ) by {
        assert(b.asks[i] == (v.top_asks[i].px, v.top_asks[i].qty));
    }
    assert forall|i: int, j: int|
        #![trigger v.top_bids[i], v.top_bids[j]]
        0 <= i < j < nb implies v.top_bids[j].px.0 < v.top_bids[i].px.0 by {
        assert(b.bids[lb - 1 - j].0.0 < b.bids[lb - 1 - i].0.0);
    }
    assert forall|i: int, j: int|
        #![trigger v.top_asks[i], v.top_asks[j]]
        0 <= i < j < na implies v.top_asks[i].px.0 < v.top_asks[j].px.0 by {
        assert(b.asks[i].0.0 < b.asks[j].0.0);
    }
    assert forall|k: int, i: int|
        #![trigger b.bids[k], v.top_bids[i]]
        0 <= k < b.bids.len() && 0 <= i < nb implies b.bids[k].0.0 <= v.top_bids[i].px.0
        || exists|j: int| 0 <= j < nb && (#[trigger] v.top_bids[j]).px == b.bids[k].0 by {
        if k < lb - nb {
            assert(b.bids[k].0.0 < b.bids[lb - 1 - i].0.0);
        } else {
            assert(v.top_bids[lb - 1 - k].px == b.bids[k].0);
        }
    }
    assert forall|k: int, i: int|
        #![trigger b.asks[k], v.top_asks[i]]
        0 <= k < b.asks.len() && 0 <= i < na implies v.top_asks[i].px.0 <= b.asks[k].0.0
        || exists|j: int| 0 <= j < na && (#[trigger] v.top_asks[j]).px == b.asks[k].0 by {
        if k >= na {
            assert(b.asks[i].0.0 < b.asks[k].0.0);
        } else {
            assert(v.top_asks[k].px == b.asks[k].0);
        }
    }
}

/// While the book is live the view has its best prices, whatever the size of the tops, and
/// the mid price is half way between them, towards zero.
pub proof fn law_view_has_the_best_prices<R>(s: EngineState<R>, io: Io)
    requires
        s.sync.phase == Phase::Live,
        s.sync.book.wf(),
    ensures
        ({
            let v = published(s, io);
            let b = s.sync.book;
            &&& v.best_bid matches Some(l) ==> forall|i: int|
                0 <= i < b.bids.len() ==> (#[trigger] b.bids[i]).0.0 <= l.px.0
            &&& v.best_bid matches Some(l) ==> crate::book_laws::has_level(b.bids, l.px, l.qty)
            &&& v.best_ask matches Some(l) ==> forall|i: int|
                0 <= i < b.asks.len() ==> l.px.0 <= (#[trigger] b.asks[i]).0.0
            &&& v.best_ask matches Some(l) ==> crate::book_laws::has_level(b.asks, l.px, l.qty)
            &&& v.mid is Some <==> v.best_bid is Some && v.best_ask is Some
            &&& v.mid matches Some(m) ==> {
                let sum = v.best_bid->0.px.0 + v.best_ask->0.px.0;
                &&& sum >= 0 ==> 2 * m.0 <= sum <= 2 * m.0 + 1
                &&& sum < 0 ==> 2 * m.0 - 1 <= sum <= 2 * m.0
            }
        }),
{
    law_best_is_best(s.sync.book);
}

/// The view names its market and tells the phase, the epoch, the id and the time of the
/// book, its coverage, the rules of the instrument, what waits, and what the lines and the
/// clock told: each line by its number. The age of the book is by the wall clock.
pub proof fn law_view_tells_the_engine<R>(s: EngineState<R>, io: Io, i: int)
    requires
        0 <= i < 4,
        s.sync.pending.len() <= usize::MAX,
        s.sync.buffer.len() <= usize::MAX,
    ensures
        ({
            let v = published(s, io);
            let c = s.sync.stats;
            let age = io.wall_ms - s.sync.last_exch_ts_ms;
            &&& v.market == s.label
            &&& v.phase == s.sync.phase
            &&& v.epoch == s.sync.epoch
            &&& v.last_update_id == s.sync.last
            &&& v.exch_ts_ms == s.sync.last_exch_ts_ms
            &&& s.sync.last_exch_ts_ms == 0 ==> v.book_age_ms == 0
            &&& s.sync.last_exch_ts_ms > 0 && i64::MIN <= age <= i64::MAX ==> v.book_age_ms == age
            &&& v.coverage == s.sync.book.coverage()
            &&& s.steps is None ==> v.tick is None && v.step is None
            &&& s.steps matches Some(r) ==> v.tick == Some(r.0) && v.step == Some(r.1)
            &&& v.off_tick_levels == s.off_tick
            &&& v.pending == s.sync.pending.len()
            &&& v.buffer == s.sync.buffer.len()
            &&& v.sync == c
            &&& v.lines.len() == 4
            &&& v.lines[i].line == i
            &&& v.lines[i].depth_up == io.lines@[i].depth_up
            &&& v.lines[i].trade_up == io.lines@[i].trade_up
            &&& v.lines[i].depth_latency == io.lines@[i].depth_latency
            &&& v.lines[i].trade_latency == io.lines@[i].trade_latency
            &&& v.lines[i].disconnects == io.lines@[i].disconnects
            &&& v.lines[i].depth_first == c.applied_by_line[i]
            &&& v.lines[i].depth_dup == c.stale_by_line[i]
            &&& v.lines[i].trades_first == s.trades_first[i]
            &&& v.trades == s.trades
            &&& v.ingest_dropped == io.ingest_dropped
            &&& v.parse_errors == io.parse_errors
            &&& v.rest_weight_1m == io.rest_weight_1m
            &&& v.published_wall_ms == io.wall_ms
        }),
{
}

/// A new trade adds to the volume of its aggressor and to nothing of the other: its
/// quantity, its fills, what was against hidden retail orders; and its price is the last.
pub proof fn law_trade_adds_to_its_aggressor(v: TradeView, t: AggTrade)
    requires
        v.unique < u64::MAX,
        v.with_nq < u64::MAX,
    ensures
        ({
            let n = traded(v, t);
            let bought = v.buy_qty.0 + t.qty.0;
            let sold = v.sell_qty.0 + t.qty.0;
            let ids = t.last_trade_id - t.first_trade_id;
            &&& n.unique == v.unique + 1
            &&& n.last_px == Some(t.px)
            &&& t.aggressor == Aggressor::Buy ==> n.sell_qty == v.sell_qty && (i64::MIN <= bought
                <= i64::MAX ==> n.buy_qty.0 == bought)
            &&& t.aggressor == Aggressor::Sell ==> n.buy_qty == v.buy_qty && (i64::MIN <= sold
                <= i64::MAX ==> n.sell_qty.0 == sold)
            &&& ids >= 0 && v.fills + ids + 1 <= u64::MAX ==> n.fills == v.fills + ids + 1
            &&& t.qty_normal is None ==> n.with_nq == v.with_nq && n.rpi_qty == v.rpi_qty
            &&& t.qty_normal matches Some(q) ==> n.with_nq == v.with_nq + 1 && (i64::MIN
                <= t.qty.0 - q.0 <= i64::MAX && i64::MIN <= v.rpi_qty.0 + (t.qty.0 - q.0)
                <= i64::MAX ==> n.rpi_qty.0 == v.rpi_qty.0 + (t.qty.0 - q.0))
            &&& n.rx == v.rx
            &&& n.dup == v.dup
        }),
{
}

/// A trade counts once: the first time it comes it adds to the volumes and to the line that
/// brought it; when another line repeats it, only as repeated.
pub proof fn law_repeated_trades_add_nothing<R>(s: EngineState<R>, t: AggTrade)
    requires
        s.trades.rx < u64::MAX,
        s.trades.dup < u64::MAX,
        s.trades.unique < u64::MAX,
        s.trades_first.len() == 4,
        t.rx.line < 4,
        s.trades_first[t.rx.line as int] < u64::MAX,
    ensures
        ({
            let n = trade_next(s, t);
            let old = (s.dedup.floor != 0 && t.agg_id <= s.dedup.floor) || crate::ordmap::holds(
                s.dedup.seen,
                t.agg_id,
            );
            &&& n.trades.rx == s.trades.rx + 1
            &&& old ==> n.trades.dup == s.trades.dup + 1 && n.trades.unique == s.trades.unique
                && n.trades.buy_qty == s.trades.buy_qty && n.trades.sell_qty == s.trades.sell_qty
                && n.trades_first == s.trades_first && n.trades.last_px == s.trades.last_px
            &&& !old ==> n.trades.unique == s.trades.unique + 1 && n.trades.dup == s.trades.dup
                && n.trades_first[t.rx.line as int] == s.trades_first[t.rx.line as int] + 1
            &&& n.sync.book == s.sync.book
            &&& n.lat_depth == s.lat_depth
        }),
{
}

/// The latency of an event is when it was received less when the exchange sent it, in µs.
pub proof fn law_latency_is_reception_less_sending(wall_ns: u64, exch_ts_ms: u64)
    ensures
        ({
            let us = latency_of(wall_ns, exch_ts_ms);
            let ns = wall_ns - exch_ts_ms * 1_000_000;
            &&& i64::MIN < us < i64::MAX ==> us * 1_000 <= ns < (us + 1) * 1_000
            &&& us == i64::MIN ==> ns < (i64::MIN + 1) * 1_000
            &&& us == i64::MAX ==> i64::MAX * 1_000 <= ns
        }),
{
}

/// A level is off the price step unless its price is a multiple of it.
pub proof fn law_off_step_counts(levels: Seq<Level>, tick: Px)
    requires
        tick.0 > 0,
    ensures
        off_step(levels, tick) == sum_upto(levels.len() as int, off_terms(levels, tick)),
    decreases levels.len(),
{
    if levels.len() > 0 {
        let u = levels.drop_last();
        law_off_step_counts(u, tick);
        let f = off_terms(levels, tick);
        let g = off_terms(u, tick);
        assert forall|i: int| 0 <= i < u.len() implies f(i) == #[trigger] g(i) by {
            assert(u[i] == levels[i]);
        }
        crate::sums::lemma_sum_same(u.len() as int, f, g);
        let p = levels.last().px.0 as int;
        let t = tick.0 as int;
        assert(levels.last() == levels[levels.len() - 1]);
        if p % t == 0 {
            vstd::arithmetic::div_mod::lemma_fundamental_div_mod(p, t);
            assert(p == (p / t) * t) by (nonlinear_arith)
                requires
                    p == t * (p / t) + p % t,
                    p % t == 0,
            ;
        } else if exists|k: int| p == #[trigger] (k * t) {
            let k = choose|k: int| p == #[trigger] (k * t);
            vstd::arithmetic::div_mod::lemma_mod_multiples_basic(k, t);
        }
    }
}

/// One for each level whose price is no multiple of the step.
pub open spec fn off_terms(levels: Seq<Level>, tick: Px) -> spec_fn(int) -> int {
    |i: int|
        if exists|k: int| levels[i].px.0 as int == #[trigger] (k * tick.0) {
            0int
        } else {
            1int
        }
}

/// A diff notes its latency under its own line and counts its levels off the step; the
/// trades and the other lines stay as they were.
pub proof fn law_diff_is_noted<R>(s: EngineState<R>, d: DepthDiff, other: int)
    requires
        d.rx.line < s.lat_depth.len(),
        0 <= other < s.lat_depth.len(),
    ensures
        ({
            let n = noted(s, d);
            let off = off_step(d.bids@, (s.steps->0).0) + off_step(d.asks@, (s.steps->0).0);
            &&& n.lat_depth.len() == s.lat_depth.len()
            &&& n.lat_depth[d.rx.line as int] == crate::telemetry::latency_next(
                s.lat_depth[d.rx.line as int],
                latency_of(d.rx.wall_ns, d.exch_ts_ms),
            )
            &&& other != d.rx.line ==> n.lat_depth[other] == s.lat_depth[other]
            &&& n.lat_trade == s.lat_trade
            &&& n.trades == s.trades
            &&& s.steps is None ==> n.off_tick == s.off_tick
            &&& s.steps is Some && s.off_tick + off <= u64::MAX ==> n.off_tick == s.off_tick + off
        }),
{
}

/// A trade leaves the book and its phase as they are, whatever it does to the flows.
pub proof fn law_trades_leave_the_book<R: SeqRule>(s: EngineState<R>, t: AggTrade, now: u64)
    ensures
        ({
            let (n, st) = handle_next(s, EngineMsg::Event(MarketEvent::Trade(t)), now);
            &&& n.label == s.label
            &&& n.cfg == s.cfg
            &&& n.steps == s.steps
            &&& n.sync.book == s.sync.book
            &&& n.sync.phase == s.sync.phase
            &&& n.sync.last == s.sync.last
            &&& n.sync.stats == s.sync.stats
            &&& n.off_tick == s.off_tick
            &&& !st.need_snapshot
            &&& n.trades == trade_next(s, t).trades
        }),
{
}

/// A diff reaches the book, and leaves the summary of trades and the rules as they are.
pub proof fn law_depth_reaches_the_book<R: SeqRule>(s: EngineState<R>, d: DepthDiff, now: u64)
    ensures
        ({
            let a = handle_next(s, EngineMsg::Event(MarketEvent::Depth(d)), now);
            let p = on_diff_next::<R, Obs>(s.sync, d, now);
            &&& a.0.sync.phase == p.s.phase
            &&& a.0.sync.last == p.s.last
            &&& a.0.sync.epoch == p.s.epoch
            &&& a.0.sync.book.bids == p.s.book.bids
            &&& a.0.sync.book.asks == p.s.book.asks
            &&& a.1.need_snapshot == p.st.need_snapshot
            &&& a.1.went_live == p.st.went_live
            &&& a.1.resync == p.st.resync
            &&& a.0.trades == s.trades
            &&& a.0.steps == s.steps
        }),
{
}

/// A snapshot that a line brings reaches the book.
pub proof fn law_snapshots_of_a_line_reach_the_book<R: SeqRule>(s: EngineState<R>, snap: DepthSnapshot, now: u64)
    ensures
        ({
            let a = handle_next(s, EngineMsg::Event(MarketEvent::Snapshot(snap)), now);
            let p = on_snapshot_next::<R, Obs>(s.sync, snap, now);
            &&& a.0.sync.phase == p.s.phase
            &&& a.0.sync.last == p.s.last
            &&& a.0.sync.epoch == p.s.epoch
            &&& a.1.went_live == p.st.went_live
        }),
{
}

/// So does one that REST brings.
pub proof fn law_snapshots_by_rest_reach_the_book<R: SeqRule>(s: EngineState<R>, snap: DepthSnapshot, now: u64)
    ensures
        ({
            let a = handle_next(s, EngineMsg::Snapshot(snap), now);
            let p = on_snapshot_next::<R, Obs>(s.sync, snap, now);
            &&& a.0.sync.phase == p.s.phase
            &&& a.0.sync.last == p.s.last
            &&& a.0.sync.epoch == p.s.epoch
            &&& a.1.went_live == p.st.went_live
        }),
{
}

/// Rules of the instrument give its steps.
pub proof fn law_rules_give_the_steps<R: SeqRule>(
    s: EngineState<R>,
    rules: InstrumentSpec,
    now: u64,
)
    ensures
        ({
            let a = handle_next(s, EngineMsg::Spec(rules), now);
            &&& a.0.steps == Some((rules.tick, rules.step))
            &&& a.0.sync.phase == s.sync.phase
            &&& a.0.sync.last == s.sync.last
            &&& a.0.trades == s.trades
        }),
{
}

/// A view is due when its time has come, and then not before a whole period later; so are
/// the metrics.
pub proof fn law_views_are_paced<R: SeqRule>(s: EngineState<R>, now: u64, later: u64)
    requires
        now + s.cfg.publish_ms <= u64::MAX,
        now + s.cfg.metrics_ms <= u64::MAX,
    ensures
        ({
            let (n, b) = tick_next(s, now);
            let (m, c) = tick_next(n, later);
            &&& b.publish <==> s.next_publish <= now
            &&& b.metrics <==> s.next_metrics <= now
            &&& b.publish && c.publish ==> now + s.cfg.publish_ms <= later
            &&& b.metrics && c.metrics ==> now + s.cfg.metrics_ms <= later
            &&& b.publish && now + s.cfg.publish_ms <= later ==> c.publish
            &&& b.metrics && now + s.cfg.metrics_ms <= later ==> c.metrics
            &&& !b.publish ==> n.next_publish == s.next_publish
            &&& !b.metrics ==> n.next_metrics == s.next_metrics
            &&& n.trades == s.trades
            &&& n.steps == s.steps
        }),
{
}

} // verus!

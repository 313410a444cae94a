//! What the candles show: volumes by aggressor, the buckets, and the readings of them.

use crate::align::LevelFlow;
use crate::event::Side;
use crate::fixed::Px;
use crate::footprint::{
    ascending, bucket_of, candle_show, cell_next, inserted, metrics_show, mid_bucket, nearest_rank,
    percentile, qty_at, reading, ref_start, reference, side_executed, touch_next, twa_at, twa_now,
    CandleState, CellState, CellView, Liquidity, MetricsState, TacticalConfig, Touch, Touched,
};
use crate::ordmap::{find, lemma_put, put, sorted};
use crate::sums::{lemma_sum_same, sum_upto};
use vstd::prelude::*;

verus! {

/// What each bucket of a side has executed.
pub open spec fn executed_terms(
    cells: Seq<((Side, i64), CellState)>,
    side: Side,
) -> spec_fn(int) -> int {
    |i: int|
        if cells[i].0.0 == side {
            cells[i].1.executed as int
        } else {
            0int
        }
}

/// What the buckets of a side have executed, in all.
pub open spec fn executed_on(cells: Seq<((Side, i64), CellState)>, side: Side) -> int {
    sum_upto(cells.len() as int, executed_terms(cells, side))
}

/// What each bucket of a side is shown to have executed.
pub open spec fn shown_terms(cells: Seq<CellView>, side: Side) -> spec_fn(int) -> int {
    |i: int|
        if cells[i].side == side {
            cells[i].executed.0 as int
        } else {
            0int
        }
}

proof fn lemma_executed_on(cells: Seq<((Side, i64), CellState)>, side: Side)
    requires
        forall|i: int| 0 <= i < cells.len() ==> 0 <= (#[trigger] cells[i]).1.executed,
        executed_on(cells, side) <= i64::MAX,
    ensures
        side_executed(cells, side) == executed_on(cells, side),
        0 <= executed_on(cells, side),
    decreases cells.len(),
{
    let f = executed_terms(cells, side);
    if cells.len() > 0 {
        let u = cells.drop_last();
        let g = executed_terms(u, side);
        assert forall|i: int| 0 <= i < u.len() implies f(i) == #[trigger] g(i) by {
            assert(u[i] == cells[i]);
        }
        lemma_sum_same(u.len() as int, f, g);
        assert(cells.last() == cells[cells.len() - 1]);
        assert(0 <= cells[cells.len() - 1].1.executed);
        assert forall|i: int| 0 <= i < u.len() implies 0 <= (#[trigger] u[i]).1.executed by {
            assert(u[i] == cells[i]);
        }
        lemma_executed_on(u, side);
    }
}

/// The volumes of a candle: bought is what was executed against its asks, sold is what was
/// executed against its bids, and the delta is the first less the second.
pub proof fn law_candle_volumes(s: MetricsState, c: CandleState, at: u64)
    requires
        forall|i: int| 0 <= i < c.cells.len() ==> 0 <= (#[trigger] c.cells[i]).1.executed,
        executed_on(c.cells, Side::Ask) <= i64::MAX,
        executed_on(c.cells, Side::Bid) <= i64::MAX,
    ensures
        ({
            let v = candle_show(s, c, at);
            &&& v.buy_exec.0 == executed_on(c.cells, Side::Ask)
            &&& v.sell_exec.0 == executed_on(c.cells, Side::Bid)
            &&& v.delta.0 == v.buy_exec.0 - v.sell_exec.0
        }),
{
    lemma_executed_on(c.cells, Side::Ask);
    lemma_executed_on(c.cells, Side::Bid);
}

/// The volumes of a candle are those of the buckets it shows.
pub proof fn law_candle_volumes_are_of_its_buckets(s: MetricsState, c: CandleState, at: u64)
    requires
        forall|i: int| 0 <= i < c.cells.len() ==> 0 <= (#[trigger] c.cells[i]).1.executed,
        executed_on(c.cells, Side::Ask) <= i64::MAX,
        executed_on(c.cells, Side::Bid) <= i64::MAX,
    ensures
        ({
            let v = candle_show(s, c, at);
            let n = v.cells.len() as int;
            &&& v.buy_exec.0 == sum_upto(n, shown_terms(v.cells, Side::Ask))
            &&& v.sell_exec.0 == sum_upto(n, shown_terms(v.cells, Side::Bid))
        }),
{
    law_candle_volumes(s, c, at);
    let v = candle_show(s, c, at);
    let n = c.cells.len() as int;
    lemma_sum_same(n, executed_terms(c.cells, Side::Ask), shown_terms(v.cells, Side::Ask));
    lemma_sum_same(n, executed_terms(c.cells, Side::Bid), shown_terms(v.cells, Side::Bid));
}

/// A candle shows its own interval and all its buckets, in order, each with its own
/// figures: where it begins, the quantity, the executions and the sums of the bounds.
pub proof fn law_candle_shows_its_buckets(s: MetricsState, c: CandleState, at: u64, i: int)
    requires
        0 <= i < c.cells.len(),
    ensures
        ({
            let v = candle_show(s, c, at);
            let (key, cell) = c.cells[i];
            let w = v.cells[i];
            &&& v.tf_ms == c.tf
            &&& v.start_ms == c.start
            &&& v.end_ms == c.end
            &&& v.clean == c.clean
            &&& v.cells.len() == c.cells.len()
            &&& (w.side, w.bucket) == key
            &&& i64::MIN <= key.1 * s.cfg.bucket.0 <= i64::MAX ==> w.px_low.0 == key.1
                * s.cfg.bucket.0
            &&& w.qty.0 == cell.qty
            &&& w.executed.0 == cell.executed
            &&& w.exec_rpi.0 == cell.rpi
            &&& w.n_fills == cell.fills
            &&& w.n_trades == cell.trades
            &&& w.no_visible_min.0 == cell.nv
            &&& w.cancelado_min.0 == cell.cm
            &&& w.agregado_min.0 == cell.am
            &&& (w.liquidity is Some ==> w.twa_ref is Some)
        }),
{
}

/// The TWA that is shown is the area over the time observed: between it and the next unit,
/// where the quantities are not negative and the area fits.
pub proof fn law_twa_is_area_over_time(c: CandleState, cell: CellState, at: u64)
    requires
        0 <= cell.acc,
        0 <= cell.qty,
        c.live_since matches Some(t) ==> t <= at && c.observed + (at - t) <= u64::MAX
            && cell.last_ts <= at,
    ensures
        ({
            let obs = match c.live_since {
                Some(t) => c.observed + (at - t),
                None => c.observed as int,
            };
            let area = match c.live_since {
                Some(t) => cell.acc + cell.qty * (at - cell.last_ts),
                None => cell.acc as int,
            };
            let twa = twa_at(c, cell, at);
            &&& c.observed_at(at) == obs
            &&& obs == 0 ==> twa == 0
            &&& obs > 0 && area <= i128::MAX && area / obs <= i64::MAX ==> twa * obs <= area
                < (twa + 1) * obs
        }),
{
    let obs = match c.live_since {
        Some(t) => c.observed + (at - t),
        None => c.observed as int,
    };
    let area = match c.live_since {
        Some(t) => cell.acc + cell.qty * (at - cell.last_ts),
        None => cell.acc as int,
    };
    assert(area >= 0) by (nonlinear_arith)
        requires
            0 <= cell.acc,
            0 <= cell.qty,
            c.live_since is Some ==> cell.last_ts <= at,
            area == (if c.live_since is Some {
                cell.acc + cell.qty * (at - cell.last_ts)
            } else {
                cell.acc as int
            }),
    ;
    if obs > 0 && area <= i128::MAX && area / obs <= i64::MAX {
        vstd::arithmetic::div_mod::lemma_fundamental_div_mod(area, obs);
        vstd::arithmetic::div_mod::lemma_mod_bound(area, obs);
        vstd::arithmetic::div_mod::lemma_div_pos_is_pos(area, obs);
        let q = area / obs;
        assert(twa_at(c, cell, at) == q);
        assert(q * obs <= area < (q + 1) * obs) by (nonlinear_arith)
            requires
                area == obs * q + area % obs,
                0 <= area % obs < obs,
        ;
    }
}

/// The view has the candle in course of every timeframe as of now, and the closed ones from
/// the oldest to the newest, up to the number asked for, each as of its end.
pub proof fn law_view_has_every_candle(s: MetricsState, n: nat, i: int, k: int)
    requires
        0 <= i < s.tracks.len(),
    ensures
        ({
            let v = metrics_show(s, n);
            let past = s.tracks[i].past;
            let m = if past.len() < n {
                past.len()
            } else {
                n
            };
            &&& v.now_ms == s.now
            &&& v.current.len() == s.tracks.len()
            &&& v.closed.len() == s.tracks.len()
            &&& v.current[i] == candle_show(s, s.tracks[i].cur, s.now)
            &&& v.closed[i].len() == m
            &&& 0 <= k < m ==> v.closed[i][m - 1 - k] == candle_show(
                s,
                past[past.len() - 1 - k],
                past[past.len() - 1 - k].end,
            )
            &&& v.walls == s.walls
            &&& v.wall_stats == s.wall_stats
        }),
{
}

/// A price is in its bucket: not under where it begins, and under where the next does.
pub proof fn law_price_is_in_its_bucket(px: Px, width: Px)
    requires
        width.0 > 0,
    ensures
        bucket_of(px, width) * width.0 <= px.0 < (bucket_of(px, width) + 1) * width.0,
{
    let p = px.0 as int;
    let w = width.0 as int;
    vstd::arithmetic::div_mod::lemma_fundamental_div_mod(p, w);
    vstd::arithmetic::div_mod::lemma_mod_bound(p, w);
    let q = p / w;
    assert(q * w <= p < (q + 1) * w) by (nonlinear_arith)
        requires
            p == w * q + p % w,
            0 <= p % w < w,
    ;
    assert(i64::MIN <= q <= i64::MAX) by (nonlinear_arith)
        requires
            q * w <= p < (q + 1) * w,
            w >= 1,
            i64::MIN <= p <= i64::MAX,
            i64::MIN == -0x8000_0000_0000_0000,
    ;
}

/// The reading of a bucket, by its share of the reference. Without liquidity in the
/// reference what is there is tactical. Else it is tactical over the upper limit of about
/// one, leaving under the lower one, and between them structural where the reference is
/// high and stable where it is not.
pub proof fn law_reading_by_share(tc: TacticalConfig, twa: i64, ref_twa: i64, thr: i64)
    requires
        tc.approx_low_pct <= tc.approx_high_pct,
    ensures
        ({
            let r = reading(tc, twa, ref_twa, thr);
            let over = twa * 100 > tc.approx_high_pct * ref_twa;
            let under = twa * 100 < tc.approx_low_pct * ref_twa;
            &&& r is None <==> ref_twa <= 0 && twa <= 0
            &&& r == Some(Liquidity::Tactica) <==> (ref_twa <= 0 && twa > 0) || (ref_twa > 0
                && over)
            &&& r == Some(Liquidity::Desarmandose) <==> ref_twa > 0 && under
            &&& r == Some(Liquidity::Estructural) <==> ref_twa > 0 && !over && !under && ref_twa
                >= thr
            &&& r == Some(Liquidity::Estable) <==> ref_twa > 0 && !over && !under && ref_twa
                < thr
        }),
{
    assert(tc.approx_low_pct * ref_twa <= tc.approx_high_pct * ref_twa || ref_twa <= 0)
        by (nonlinear_arith)
        requires
            tc.approx_low_pct <= tc.approx_high_pct,
    ;
}

/// The reference of a short candle is the whole long candle before the long one that holds
/// it: it starts at a multiple of the long timeframe, and ends where the one that holds the
/// short candle starts. Other candles have no reference.
pub proof fn law_reference_is_the_long_candle_before(tc: TacticalConfig, c: CandleState)
    requires
        tc.long_tf_ms > 0,
    ensures
        c.tf != tc.short_tf_ms ==> ref_start(tc, c) is None,
        c.tf == tc.short_tf_ms && c.start >= tc.long_tf_ms ==> ref_start(tc, c) is Some,
        ref_start(tc, c) matches Some(t) ==> t % tc.long_tf_ms == 0 && t + tc.long_tf_ms <= c.start
            < t + 2 * tc.long_tf_ms,
{
    let s = c.start as int;
    let l = tc.long_tf_ms as int;
    let q = s / l;
    vstd::arithmetic::div_mod::lemma_fundamental_div_mod(s, l);
    vstd::arithmetic::div_mod::lemma_mod_bound(s, l);
    vstd::arithmetic::div_mod::lemma_div_pos_is_pos(s, l);
    assert(q * l <= s < q * l + l) by (nonlinear_arith)
        requires
            s == l * q + s % l,
            0 <= s % l < l,
    ;
    if s >= l {
        assert(q >= 1) by (nonlinear_arith)
            requires
                s < q * l + l,
                s >= l,
                l > 0,
        ;
        assert(q * l >= l) by (nonlinear_arith)
            requires
                q >= 1,
                l > 0,
        ;
    }
    if q * l >= l {
        assert(q * l - l == l * (q - 1)) by (nonlinear_arith);
        vstd::arithmetic::div_mod::lemma_mod_multiples_basic(q - 1, l);
        assert((l * (q - 1)) % l == 0) by {
            assert(l * (q - 1) == (q - 1) * l) by (nonlinear_arith);
        }
    }
}

/// The values in increasing order hold what the values do.
proof fn lemma_inserted(s: Seq<i128>, v: i128)
    requires
        forall|i: int, j: int| 0 <= i <= j < s.len() ==> s[i] <= s[j],
    ensures
        ({
            let t = inserted(s, v);
            &&& forall|i: int, j: int| 0 <= i <= j < t.len() ==> t[i] <= t[j]
            &&& t.len() == s.len() + 1
            &&& t.to_multiset() =~= s.to_multiset().insert(v)
        }),
    decreases s.len(),
{
    broadcast use vstd::seq_lib::group_to_multiset_ensures;

    if s.len() == 0 || s.last() <= v {
        assert forall|i: int, j: int| 0 <= i <= j < s.push(v).len() implies s.push(v)[i]
            <= s.push(v)[j] by {
            if s.len() > 0 && i < s.len() {
                assert(s[i] <= s[s.len() - 1]);
            }
        }
    } else {
        let u = s.drop_last();
        lemma_inserted(u, v);
        let t = inserted(u, v);
        assert(s =~= u.push(s.last()));
        assert forall|i: int| 0 <= i < t.len() implies #[trigger] t[i] <= s.last() by {
            assert(t.to_multiset().contains(t[i]));
            assert(u.to_multiset().insert(v).contains(t[i]));
            if t[i] != v {
                assert(u.to_multiset().contains(t[i]));
                assert(u.contains(t[i]));
                let m = choose|m: int| 0 <= m < u.len() && u[m] == t[i];
                assert(s[m] <= s[s.len() - 1]);
            }
        }
        assert(t.push(s.last()).to_multiset() =~= s.to_multiset().insert(v));
    }
}

/// The values in increasing order are the values, in increasing order.
pub proof fn law_ascending_sorts(s: Seq<i128>)
    ensures
        ascending(s).len() == s.len(),
        ascending(s).to_multiset() == s.to_multiset(),
        forall|i: int, j: int| 0 <= i <= j < s.len() ==> ascending(s)[i] <= ascending(s)[j],
    decreases s.len(),
{
    broadcast use vstd::seq_lib::group_to_multiset_ensures;

    if s.len() > 0 {
        law_ascending_sorts(s.drop_last());
        lemma_inserted(ascending(s.drop_last()), s.last());
        assert(s =~= s.drop_last().push(s.last()));
        assert(ascending(s).to_multiset() =~= s.to_multiset());
    }
}

/// The percentile is one of the values, by the nearest rank: with the values in increasing
/// order, the first one such that at least `p` in a hundred of them stand up to it.
pub proof fn law_percentile_is_the_nearest_rank(s: Seq<i128>, p: u32, none: i128)
    requires
        s.len() > 0,
        p <= 100,
    ensures
        exists|r: int|
            #![trigger ascending(s)[r]]
            0 <= r < s.len() && percentile(s, p, none) == ascending(s)[r] && (r + 1) * 100 >= p
                * s.len() && (r > 0 ==> r * 100 < p * s.len()),
        s.contains(percentile(s, p, none)),
{
    broadcast use vstd::seq_lib::group_to_multiset_ensures;

    let n = s.len() as int;
    let k = nearest_rank(s.len(), p);
    law_ascending_sorts(s);
    assert(n * p <= n * 100) by (nonlinear_arith)
        requires
            p <= 100,
            n >= 0,
    ;
    assert(0 <= n * p) by (nonlinear_arith)
        requires
            n >= 0,
            p >= 0,
    ;
    assert(p * n == n * p) by (nonlinear_arith);
    let r = k - 1;
    assert(percentile(s, p, none) == ascending(s)[r]);
    assert(ascending(s).to_multiset().contains(ascending(s)[r]));
    assert(s.to_multiset().contains(ascending(s)[r]));
}

/// What a batch did to a bucket grows by each flow of it: what was executed, the fills and
/// trades, the bounds, and the change of the level that it tells.
pub proof fn law_batch_adds_its_flows(t: Touched, f: LevelFlow, width: Px)
    requires
        sorted(t.keys),
        width.0 > 0,
    ensures
        ({
            let b = bucket_of(f.px, width);
            let key = (f.side, b);
            let now = match f.side {
                Side::Bid => qty_at(t.bid_buckets, b),
                Side::Ask => qty_at(t.ask_buckets, b),
            };
            let level = match f.side {
                Side::Bid => qty_at(t.bids, f.px),
                Side::Ask => qty_at(t.asks, f.px),
            };
            let before = match find(t.keys, key) {
                Some(e) => e,
                None => Touch {
                    prev: now,
                    new: now,
                    executed: 0,
                    rpi: 0,
                    fills: 0,
                    trades: 0,
                    nv: 0,
                    cm: 0,
                    am: 0,
                },
            };
            &&& find(touch_next(t, f, width).keys, key) matches Some(a)
            &&& a.prev == before.prev
            &&& i64::MIN <= f.q1.0 - level <= i64::MAX && i64::MIN <= before.new + (f.q1.0
                - level) <= i64::MAX ==> a.new == before.new + (f.q1.0 - level)
            &&& i64::MIN <= before.executed + f.executed.0 <= i64::MAX ==> a.executed
                == before.executed + f.executed.0
            &&& i64::MIN <= before.rpi + f.exec_rpi.0 <= i64::MAX ==> a.rpi == before.rpi
                + f.exec_rpi.0
            &&& before.fills + f.n_fills <= u64::MAX ==> a.fills == before.fills + f.n_fills
            &&& before.trades + f.n_trades <= u64::MAX ==> a.trades == before.trades + f.n_trades
            &&& i64::MIN <= before.nv + f.no_visible_min.0 <= i64::MAX ==> a.nv == before.nv
                + f.no_visible_min.0
            &&& i64::MIN <= before.cm + f.cancelado_min.0 <= i64::MAX ==> a.cm == before.cm
                + f.cancelado_min.0
            &&& i64::MIN <= before.am + f.agregado_min.0 <= i64::MAX ==> a.am == before.am
                + f.agregado_min.0
        }),
        forall|k: (Side, i64)|
            k != (f.side, bucket_of(f.px, width)) ==> #[trigger] find(
                touch_next(t, f, width).keys,
                k,
            ) == find(t.keys, k),
{
    let b = bucket_of(f.px, width);
    let key = (f.side, b);
    let n = touch_next(t, f, width).keys;
    let a = n[crate::ordmap::rank(t.keys, key) as int].1;
    lemma_put(t.keys, key, a);
    crate::ordmap::lemma_rank_splits(t.keys, key);
    assert(n =~= put(t.keys, key, a));
    assert(find(put(t.keys, key, a), key) == Some(a));
    assert forall|k: (Side, i64)| k != key implies #[trigger] find(n, k) == find(t.keys, k) by {
        assert(find(put(t.keys, key, a), k) == find(t.keys, k));
    }
}

/// A bucket of a candle takes the sums of the batches that touch it, and holds the quantity
/// after the last one.
pub proof fn law_bucket_adds_its_batches(c: CellState, t: Touch, ts: u64, live: bool)
    ensures
        ({
            let n = cell_next(c, t, ts, live);
            &&& n.qty == t.new
            &&& n.last_ts == ts
            &&& i64::MIN <= c.executed + t.executed <= i64::MAX ==> n.executed == c.executed
                + t.executed
            &&& i64::MIN <= c.rpi + t.rpi <= i64::MAX ==> n.rpi == c.rpi + t.rpi
            &&& c.fills + t.fills <= u64::MAX ==> n.fills == c.fills + t.fills
            &&& c.trades + t.trades <= u64::MAX ==> n.trades == c.trades + t.trades
            &&& i64::MIN <= c.nv + t.nv <= i64::MAX ==> n.nv == c.nv + t.nv
            &&& i64::MIN <= c.cm + t.cm <= i64::MAX ==> n.cm == c.cm + t.cm
            &&& i64::MIN <= c.am + t.am <= i64::MAX ==> n.am == c.am + t.am
        }),
{
}

/// The mid price is half way between the best bid and the best ask, down to the unit, where
/// prices are not negative; without either there is none.
pub proof fn law_mid_bucket_is_between(s: MetricsState)
    requires
        s.cfg.bucket.0 > 0,
    ensures
        mid_bucket(s) is None <==> s.bids.len() == 0 || s.asks.len() == 0,
        mid_bucket(s) matches Some(m) ==> (0 <= s.bids.last().0.0 && 0 <= s.asks[0].0.0 ==> 2 * m
            * s.cfg.bucket.0 <= s.bids.last().0.0 + s.asks[0].0.0 < 2 * (m + 1)
            * s.cfg.bucket.0),
{
    if s.bids.len() > 0 && s.asks.len() > 0 && 0 <= s.bids.last().0.0 && 0 <= s.asks[0].0.0 {
        let sum = s.bids.last().0.0 + s.asks[0].0.0;
        let p = Px((sum / 2) as i64);
        let w = s.cfg.bucket.0 as int;
        law_price_is_in_its_bucket(p, s.cfg.bucket);
        let m = bucket_of(p, s.cfg.bucket) as int;
        assert(m * w <= p.0 < (m + 1) * w);
        assert(2 * m * w == 2 * (m * w) && 2 * (m + 1) * w == 2 * ((m + 1) * w))
            by (nonlinear_arith);
    }
}

/// [`crate::footprint::Metrics::twa`] is the TWA that the candle in course shows for the
/// bucket; there is none for a bucket or a timeframe that is not there, nor before anything
/// was observed.
pub proof fn law_twa_is_the_one_shown(s: MetricsState, tf: u64, side: Side, bucket: i64)
    ensures
        twa_now(s, tf, side, bucket) matches Some(q) ==> exists|i: int|
            #![trigger s.tracks[i]]
            0 <= i < s.tracks.len() && s.tracks[i].cur.tf == tf && (find(
                s.tracks[i].cur.cells,
                (side, bucket),
            ) matches Some(cell) && q.0 == twa_at(s.tracks[i].cur, cell, s.now)
                && s.tracks[i].cur.observed_at(s.now) > 0),
        (forall|i: int| 0 <= i < s.tracks.len() ==> (#[trigger] s.tracks[i]).cur.tf != tf)
            ==> twa_now(s, tf, side, bucket) is None,
{
    lemma_track_found(s, tf, 0);
}

proof fn lemma_track_found(s: MetricsState, tf: u64, from: int)
    requires
        0 <= from,
    ensures
        crate::footprint::track_of(s.tracks, tf, from) matches Some(c) ==> exists|i: int|
            #![trigger s.tracks[i]]
            from <= i < s.tracks.len() && s.tracks[i].cur == c && c.tf == tf,
    decreases s.tracks.len() - from,
{
    if from < s.tracks.len() && s.tracks[from].cur.tf != tf {
        lemma_track_found(s, tf, from + 1);
    }
}

} // verus!

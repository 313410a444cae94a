//! How a bucket is read: what it is compared with, and among which buckets.

use crate::align::BatchInfo;
use crate::cvd::covered;
use crate::event::Side;
use crate::fixed::Qty;
use crate::footprint::{
    acc_at, advanced, average, batch_start, batch_touch, candle_show, cell_show, closed_at,
    first_candle, last_n, mid_bucket, opened, partial, paused, percentile, position_from,
    process_next, qty_at, reading, reference, resumed, rolled, side_areas, side_averages,
    starting_at, CandleState, CellState, MetricsShow, MetricsState, Reference, TrackState,
};
use crate::twa_laws::lemma_walls_keep;
use vstd::prelude::*;

verus! {

/// A bucket is read against the same bucket of its reference and against the threshold of
/// its own side.
pub proof fn law_bucket_is_read_against_its_side(
    s: MetricsState,
    c: CandleState,
    b: i64,
    cell: CellState,
    at: u64,
    r: Reference,
)
    ensures
        ({
            let v = cell_show(s, c, (Side::Bid, b), cell, at, Some(r));
            let q = qty_at(r.twa, (Side::Bid, b));
            &&& v.side == Side::Bid && v.bucket == b && v.twa_ref == Some(Qty(q))
            &&& v.liquidity == reading(s.cfg.tactical, v.twa.0, q, r.bid_thr)
        }),
        ({
            let v = cell_show(s, c, (Side::Ask, b), cell, at, Some(r));
            let q = qty_at(r.twa, (Side::Ask, b));
            &&& v.side == Side::Ask && v.bucket == b && v.twa_ref == Some(Qty(q))
            &&& v.liquidity == reading(s.cfg.tactical, v.twa.0, q, r.ask_thr)
        }),
        ({
            let v = cell_show(s, c, (Side::Bid, b), cell, at, None);
            v.liquidity is None && v.twa_ref is None
        }),
{
}

proof fn lemma_starting(past: Seq<CandleState>, start: u64, i: int)
    requires
        0 <= i <= past.len(),
    ensures
        starting_at(past, start, i) matches Some(c) ==> c.start == start && exists|j: int|
            i <= j < past.len() && #[trigger] past[j] == c,
        starting_at(past, start, i) is None ==> forall|j: int|
            i <= j < past.len() ==> (#[trigger] past[j]).start != start,
    decreases past.len() - i,
{
    if i < past.len() && past[i].start != start {
        lemma_starting(past, start, i + 1);
    }
}

/// The candle that starts at an instant is one of the past with that start.
pub proof fn law_candle_is_found_by_its_start(past: Seq<CandleState>, start: u64)
    ensures
        starting_at(past, start, 0) matches Some(c) ==> c.start == start && past.contains(c),
        starting_at(past, start, 0) is None ==> forall|j: int|
            0 <= j < past.len() ==> (#[trigger] past[j]).start != start,
{
    lemma_starting(past, start, 0);
}

/// The reference has the average of each bucket of a closed long candle, and a threshold for
/// each side: the percentile of the averages of that side that are within the coverage.
pub proof fn law_reference_has_a_threshold_for_each_side(s: MetricsState, start: u64)
    ensures
        reference(s, start) matches Some(r) ==> {
            &&& i64::MIN <= percentile(
                side_averages(s, r.twa, Side::Bid),
                s.cfg.tactical.high_percentile,
                i64::MAX as i128,
            ) <= i64::MAX ==> r.bid_thr == percentile(
                side_averages(s, r.twa, Side::Bid),
                s.cfg.tactical.high_percentile,
                i64::MAX as i128,
            )
            &&& i64::MIN <= percentile(
                side_averages(s, r.twa, Side::Ask),
                s.cfg.tactical.high_percentile,
                i64::MAX as i128,
            ) <= i64::MAX ==> r.ask_thr == percentile(
                side_averages(s, r.twa, Side::Ask),
                s.cfg.tactical.high_percentile,
                i64::MAX as i128,
            )
            &&& exists|t: int, p: int|
                #![trigger s.tracks[t].past[p]]
                0 <= t < s.tracks.len() && 0 <= p < s.tracks[t].past.len() && ({
                    let c = s.tracks[t].past[p];
                    &&& s.cfg.timeframes_ms@[t] == s.cfg.tactical.long_tf_ms
                    &&& c.start == start && c.observed > 0 && r.twa.len() == c.cells.len()
                    &&& forall|i: int|
                        0 <= i < r.twa.len() ==> #[trigger] r.twa[i] == (
                            c.cells[i].0,
                            average(c.cells[i].1.acc, c.observed),
                        )
                })
        },
{
    if reference(s, start) is Some {
        let r = reference(s, start)->0;
        lemma_position(s.cfg.timeframes_ms@, s.cfg.tactical.long_tf_ms, 0);
        let t = position_from(
            s.cfg.timeframes_ms@,
            s.cfg.tactical.long_tf_ms,
            0,
        )->0;
        let past = s.tracks[t].past;
        lemma_starting(past, start, 0);
        let c = starting_at(past, start, 0)->0;
        let p = choose|j: int| 0 <= j < past.len() && #[trigger] past[j] == c;
        assert(s.tracks[t].past[p] == c);
    }
}

proof fn lemma_position(s: Seq<u64>, x: u64, i: int)
    requires
        0 <= i <= s.len(),
    ensures
        position_from(s, x, i) matches Some(k) ==> i <= k < s.len() && s[k] == x,
    decreases s.len() - i,
{
    if i < s.len() && s[i] != x {
        lemma_position(s, x, i + 1);
    }
}

/// The buckets of a side that are within the coverage.
pub open spec fn within_coverage(
    s: MetricsState,
    twa: Seq<((Side, i64), i64)>,
    side: Side,
) -> Seq<((Side, i64), i64)>
    decreases twa.len(),
{
    if twa.len() == 0 {
        Seq::empty()
    } else {
        let v = within_coverage(s, twa.drop_last(), side);
        if twa.last().0.0 == side && !partial(s, side, twa.last().0.1) {
            v.push(twa.last())
        } else {
            v
        }
    }
}

/// A threshold is taken among the buckets of its own side alone, and of those within the
/// coverage each counts once.
pub proof fn law_threshold_is_among_its_side(
    s: MetricsState,
    twa: Seq<((Side, i64), i64)>,
    side: Side,
)
    ensures
        ({
            let v = side_averages(s, twa, side);
            let w = within_coverage(s, twa, side);
            &&& v.len() == w.len()
            &&& forall|i: int| 0 <= i < v.len() ==> #[trigger] v[i] == w[i].1
            &&& forall|i: int|
                0 <= i < w.len() ==> (#[trigger] w[i]).0.0 == side && twa.contains(w[i])
        }),
    decreases twa.len(),
{
    if twa.len() > 0 {
        let f = twa.drop_last();
        law_threshold_is_among_its_side(s, f, side);
        let w = within_coverage(s, twa, side);
        let wf = within_coverage(s, f, side);
        assert forall|i: int| 0 <= i < w.len() implies (#[trigger] w[i]).0.0 == side
            && twa.contains(w[i]) by {
            if i < wf.len() {
                assert(w[i] == wf[i]);
                let j = choose|j: int| 0 <= j < f.len() && f[j] == wf[i];
                assert(twa[j] == w[i]);
            } else {
                assert(twa[twa.len() - 1] == w[i]);
            }
        }
    }
}

/// The buckets of a side within the coverage, among some cells.
pub open spec fn cells_within(
    s: MetricsState,
    cells: Seq<((Side, i64), CellState)>,
    side: Side,
) -> Seq<((Side, i64), CellState)>
    decreases cells.len(),
{
    if cells.len() == 0 {
        Seq::empty()
    } else {
        let v = cells_within(s, cells.drop_last(), side);
        if cells.last().0.0 == side && !partial(s, side, cells.last().0.1) {
            v.push(cells.last())
        } else {
            v
        }
    }
}

/// A wall is weighed among the buckets of its own side alone that are within the coverage.
pub proof fn law_wall_is_weighed_among_its_side(
    s: MetricsState,
    cells: Seq<((Side, i64), CellState)>,
    side: Side,
    ts: u64,
    live: bool,
)
    ensures
        ({
            let v = side_areas(s, cells, side, ts, live);
            let w = cells_within(s, cells, side);
            &&& v.len() == w.len()
            &&& forall|i: int| 0 <= i < v.len() ==> #[trigger] v[i] == acc_at(w[i].1, ts, live)
            &&& forall|i: int|
                0 <= i < w.len() ==> (#[trigger] w[i]).0.0 == side && cells.contains(w[i])
        }),
    decreases cells.len(),
{
    if cells.len() > 0 {
        let f = cells.drop_last();
        law_wall_is_weighed_among_its_side(s, f, side, ts, live);
        let w = cells_within(s, cells, side);
        let wf = cells_within(s, f, side);
        assert forall|i: int| 0 <= i < w.len() implies (#[trigger] w[i]).0.0 == side
            && cells.contains(w[i]) by {
            if i < wf.len() {
                assert(w[i] == wf[i]);
                let j = choose|j: int| 0 <= j < f.len() && f[j] == wf[i];
                assert(cells[j] == w[i]);
            } else {
                assert(cells[cells.len() - 1] == w[i]);
            }
        }
    }
}

/// The newest candles are shown, in order.
pub proof fn law_newest_candles_are_shown(past: Seq<CandleState>, n: nat)
    ensures
        last_n(past, n).len() == (if past.len() <= n {
            past.len()
        } else {
            n
        }),
        forall|i: int|
            0 <= i < last_n(past, n).len() ==> #[trigger] last_n(past, n)[i] == past[past.len()
                - last_n(past, n).len() + i],
{
}

/// A candle is shown with its own span, what was observed of it and whether it is clean.
pub proof fn law_candle_shows_its_span(s: MetricsState, c: CandleState, at: u64)
    ensures
        ({
            let v = candle_show(s, c, at);
            &&& v.tf_ms == c.tf && v.start_ms == c.start && v.end_ms == c.end && v.clean == c.clean
            &&& c.live_since is None ==> v.observed_ms == c.observed
            &&& c.live_since matches Some(t) ==> (t <= at && c.observed + (at - t) <= u64::MAX
                ==> v.observed_ms == c.observed + (at - t))
        }),
{
}

/// A market covers what is over the floor of its bids and under the ceiling of its asks.
pub proof fn law_market_covers_between(v: MetricsShow, bucket: i64)
    ensures
        covered(v, Side::Bid, bucket) <==> (v.bid_floor_bucket matches Some(f) ==> bucket > f),
        covered(v, Side::Ask, bucket) <==> (v.ask_ceiling_bucket matches Some(c) ==> bucket < c),
{
}

/// A candle opens for its timeframe, with the book as it stands, and is clean only where the
/// book was live from its very start. The first of all, and one that was paused or resumed,
/// is not.
pub proof fn law_candle_opens_and_pauses(
    bids: Seq<(i64, i64)>,
    asks: Seq<(i64, i64)>,
    tf: u64,
    start: u64,
    live_at: Option<u64>,
    c: CandleState,
    at: u64,
)
    requires
        tf > 0,
    ensures
        ({
            let o = opened(bids, asks, tf, start, live_at);
            &&& o.tf == tf && o.start == start && o.observed == 0 && o.live_since == live_at
            &&& start + tf <= u64::MAX ==> o.end == start + tf
            &&& o.clean <==> live_at == Some(start)
            &&& o.cells.len() == bids.len() + asks.len()
        }),
        ({
            let p = paused(c, at);
            &&& !p.clean && p.live_since is None
            &&& p.tf == c.tf && p.start == c.start && p.end == c.end
            &&& p.observed == c.observed_at(at)
        }),
        ({
            let r = resumed(bids, asks, c, at);
            &&& !r.clean && r.live_since == Some(at) && r.observed == c.observed
            &&& r.tf == c.tf && r.start == c.start && r.end == c.end
        }),
        ({
            let f = first_candle(bids, asks, true, tf, at);
            &&& !f.clean && f.live_since == Some(at) && f.tf == tf
            &&& f.start <= at < f.start + tf
            &&& f.start as int % tf as int == 0
        }),
        ({
            let d = closed_at(c, at);
            &&& d.live_since is None && d.clean == c.clean && d.observed == c.observed_at(at)
            &&& d.tf == c.tf && d.start == c.start && d.end == c.end
        }),
{
    let a = at as int;
    let t = tf as int;
    let q = a / t;
    vstd::arithmetic::div_mod::lemma_fundamental_div_mod(a, t);
    vstd::arithmetic::div_mod::lemma_mod_bound(a, t);
    vstd::arithmetic::div_mod::lemma_mod_multiples_basic(q, t);
    assert(q * t <= a < q * t + t && 0 <= q * t) by (nonlinear_arith)
        requires
            a == t * q + a % t,
            0 <= a % t < t,
            0 <= a,
            q == a / t,
            t > 0,
    ;
}

/// Candles follow one another: where time goes past the end of one, it closes there and the
/// next one starts there, live if it was.
pub proof fn law_candles_follow_one_another(
    bids: Seq<(i64, i64)>,
    asks: Seq<(i64, i64)>,
    keep: nat,
    t: TrackState,
    ts: u64,
)
    requires
        t.cur.tf > 0,
        t.cur.end <= ts,
        ts < t.cur.end + t.cur.tf,
        t.cur.end + t.cur.tf <= u64::MAX,
        keep > 0,
    ensures
        ({
            let r = rolled(bids, asks, keep, t, ts);
            &&& r.past.len() > 0 && r.past.last() == closed_at(t.cur, t.cur.end)
            &&& r.cur.start == t.cur.end && r.cur.end == t.cur.end + t.cur.tf && r.cur.tf
                == t.cur.tf
            &&& t.cur.live_since is Some ==> r.cur.live_since == Some(t.cur.end) && r.cur.clean
            &&& t.cur.live_since is None ==> r.cur.live_since is None && !r.cur.clean
        }),
{
    reveal_with_fuel(rolled, 3);
}

/// A contaminated batch spoils every candle in course; a clean one spoils none. A batch that
/// comes while the book is not live is forgotten.
pub proof fn law_contaminated_batch_spoils_the_candles(s: MetricsState, b: BatchInfo)
    ensures
        ({
            let n = process_next(s, b);
            &&& n.batch.len() == 0
            &&& !s.live ==> n.tracks == s.tracks && n.now == s.now
            &&& s.live ==> n.now == b.end_ts_ms
            &&& s.live && b.contaminated is Some ==> forall|i: int|
                0 <= i < n.tracks.len() ==> !(#[trigger] n.tracks[i]).cur.clean
            &&& s.live && b.contaminated is None && !s.resume_pending ==> {
                let a = advanced(MetricsState { batch: Seq::empty(), ..s }, b.end_ts_ms);
                &&& n.tracks.len() == a.tracks.len()
                &&& forall|i: int|
                    0 <= i < n.tracks.len() ==> (#[trigger] n.tracks[i]).cur.clean
                        == a.tracks[i].cur.clean && n.tracks[i].cur.observed
                        == a.tracks[i].cur.observed && n.tracks[i].past == a.tracks[i].past
            }
        }),
{
    if s.live {
        let p = batch_start(s, b);
        let t = batch_touch(p, s.batch);
        let q = MetricsState {
            bids: t.bids,
            asks: t.asks,
            bid_buckets: t.bid_buckets,
            ask_buckets: t.ask_buckets,
            ..p
        };
        if let Some(wi) = position_from(s.cfg.timeframes_ms@, s.cfg.wall_tf_ms, 0) {
            lemma_walls_keep(
                q,
                wi,
                t.keys,
                b.contaminated is None,
                b.end_ts_ms,
                mid_bucket(q),
            );
        }
    }
}

} // verus!

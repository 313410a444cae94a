//! What the metrics promise of their candles: they tile the time, aligned to it.

use crate::align::BatchInfo;
use crate::fixed::lemma_floor;
use crate::footprint::{
    advanced, batch_start, batch_touch, closed_at, first_candle, invalidated_next, last_n,
    metrics_start, mid_bucket, opened, position_from, process_next, resume_next, rolled,
    walls_next, CandleState, MetricsConfig, MetricsState, TrackState,
};
use crate::twa_laws::{
    lemma_run_tells, lemma_walls_keep, metrics_run, metrics_take, orderly_inputs, track_true,
    MetricsInput,
};
use vstd::prelude::*;

verus! {

/// A candle of the timeframe, aligned to it. The last one that its type can tell has no
/// end.
pub open spec fn aligned(c: CandleState, tf: u64) -> bool {
    &&& tf > 0
    &&& c.tf == tf
    &&& c.start as int % tf as int == 0
    &&& c.end == c.start + tf || c.end == u64::MAX
}

/// The candles of a track are of its timeframe, and each starts where the one before
/// ends.
pub open spec fn tiled(tr: TrackState, tf: u64) -> bool {
    &&& aligned(tr.cur, tf)
    &&& forall|i: int|
        0 <= i < tr.past.len() ==> aligned(#[trigger] tr.past[i], tf) && tr.past[i].end
            == tr.past[i].start + tf
    &&& forall|i: int, j: int|
        0 <= i < tr.past.len() && j == i + 1 && j < tr.past.len() ==> (#[trigger] tr.past[j]).start
            == (#[trigger] tr.past[i]).end
    &&& tr.past.len() > 0 ==> tr.cur.start == tr.past.last().end
}

proof fn lemma_rolled_tiled(
    bids: Seq<(i64, i64)>,
    asks: Seq<(i64, i64)>,
    keep: nat,
    tr: TrackState,
    ts: u64,
    tf: u64,
)
    requires
        tiled(tr, tf),
    ensures
        tiled(rolled(bids, asks, keep, tr, ts), tf),
    decreases u64::MAX - tr.cur.end,
{
    if !(ts < tr.cur.end || tr.cur.end == u64::MAX) {
        let end = tr.cur.end;
        let live_at = if tr.cur.live_since is Some {
            Some(end)
        } else {
            None
        };
        let p = tr.past.push(closed_at(tr.cur, end));
        let next = TrackState {
            cur: opened(bids, asks, tf, end, live_at),
            past: last_n(p, keep),
        };
        assert(end as int % tf as int == 0) by {
            assert(end == tr.cur.start + tf);
            vstd::arithmetic::div_mod::lemma_mod_add_multiples_vanish(
                tr.cur.start as int,
                tf as int,
            );
        }
        let k = p.len() - next.past.len();
        assert forall|i: int| 0 <= i < next.past.len() implies aligned(#[trigger] next.past[i], tf)
            && next.past[i].end == next.past[i].start + tf by {
            assert(next.past[i] == p[i + k]);
            if i + k < tr.past.len() {
                assert(p[i + k] == tr.past[i + k]);
            }
        }
        assert forall|i: int, j: int|
            0 <= i < next.past.len() && j == i + 1 && j < next.past.len() implies (
        #[trigger] next.past[j]).start == (#[trigger] next.past[i]).end by {
            assert(next.past[i] == p[i + k] && next.past[j] == p[j + k]);
            assert(p[i + k] == tr.past[i + k]);
            if j + k < tr.past.len() {
                assert(p[j + k] == tr.past[j + k]);
            } else {
                assert(tr.past[i + k] == tr.past.last());
            }
        }
        if next.past.len() > 0 {
            assert(next.past.last() == p[p.len() - 1]);
        }
        lemma_rolled_tiled(bids, asks, keep, next, ts, tf);
    }
}

/// The tracks are those of the timeframes, or none yet.
spec fn all_tiled(s: MetricsState) -> bool {
    &&& s.cfg.valid()
    &&& s.tracks.len() == 0 || s.tracks.len() == s.cfg.timeframes_ms@.len()
    &&& forall|i: int|
        0 <= i < s.tracks.len() ==> tiled(#[trigger] s.tracks[i], s.cfg.timeframes_ms@[i])
}

/// What a candle holds says nothing of its span.
proof fn lemma_same_span(tr: TrackState, c: CandleState, tf: u64)
    requires
        tiled(tr, tf),
        c.tf == tr.cur.tf,
        c.start == tr.cur.start,
        c.end == tr.cur.end,
    ensures
        tiled(TrackState { cur: c, ..tr }, tf),
{
    let n = TrackState { cur: c, ..tr };
    assert(n.past == tr.past);
}

proof fn lemma_batch_tiled(s: MetricsState, b: BatchInfo)
    requires
        all_tiled(s),
    ensures
        all_tiled(process_next(s, b)),
        process_next(s, b).cfg == s.cfg,
{
    if s.live {
        let ts = b.end_ts_ms;
        let tfs = s.cfg.timeframes_ms@;
        let a = advanced(MetricsState { batch: Seq::empty(), ..s }, ts);
        assert forall|i: int| 0 <= i < a.tracks.len() implies tiled(
            #[trigger] a.tracks[i],
            tfs[i],
        ) by {
            if s.tracks.len() > 0 {
                assert(tiled(s.tracks[i], tfs[i]));
                lemma_rolled_tiled(
                    s.bid_buckets,
                    s.ask_buckets,
                    s.cfg.keep_closed as nat,
                    s.tracks[i],
                    ts,
                    tfs[i],
                );
            } else {
                let tf = tfs[i];
                assert(tf > 0);
                lemma_floor(ts as int, tf as int);
                let q = ts as int / tf as int;
                vstd::arithmetic::div_mod::lemma_mod_multiples_basic(q, tf as int);
                let c = first_candle(s.bid_buckets, s.ask_buckets, s.live, tf, ts);
                assert(c.start == q * tf);
                assert(a.tracks[i] == (TrackState { cur: c, past: Seq::empty() }));
            }
        }
        let r = if a.resume_pending {
            resume_next(a, ts)
        } else {
            a
        };
        assert forall|i: int| 0 <= i < r.tracks.len() implies tiled(
            #[trigger] r.tracks[i],
            tfs[i],
        ) by {
            assert(tiled(a.tracks[i], tfs[i]));
            lemma_same_span(a.tracks[i], r.tracks[i].cur, tfs[i]);
            assert(r.tracks[i] == (TrackState { cur: r.tracks[i].cur, ..a.tracks[i] }));
        }
        let p = batch_start(s, b);
        assert forall|i: int| 0 <= i < p.tracks.len() implies tiled(
            #[trigger] p.tracks[i],
            tfs[i],
        ) by {
            assert(tiled(r.tracks[i], tfs[i]));
            lemma_same_span(r.tracks[i], p.tracks[i].cur, tfs[i]);
            assert(p.tracks[i] == (TrackState { cur: p.tracks[i].cur, ..r.tracks[i] }));
        }
        let t = batch_touch(p, s.batch);
        let q = MetricsState {
            bids: t.bids,
            asks: t.asks,
            bid_buckets: t.bid_buckets,
            ask_buckets: t.ask_buckets,
            ..p
        };
        let clean = b.contaminated is None;
        let w = match position_from(tfs, s.cfg.wall_tf_ms, 0) {
            Some(wi) => if wi < q.tracks.len() {
                walls_next(q, wi, t.keys, clean, ts, mid_bucket(q))
            } else {
                q
            },
            None => q,
        };
        match position_from(tfs, s.cfg.wall_tf_ms, 0) {
            Some(wi) => {
                lemma_walls_keep(q, wi, t.keys, clean, ts, mid_bucket(q));
            },
            None => {},
        }
        let n = process_next(s, b);
        assert(w.tracks == p.tracks);
        assert forall|i: int| 0 <= i < n.tracks.len() implies tiled(
            #[trigger] n.tracks[i],
            tfs[i],
        ) by {
            assert(tiled(p.tracks[i], tfs[i]));
            lemma_same_span(p.tracks[i], n.tracks[i].cur, tfs[i]);
            assert(n.tracks[i] == (TrackState { cur: n.tracks[i].cur, ..p.tracks[i] }));
        }
    }
}

proof fn lemma_invalidated_tiled(s: MetricsState)
    requires
        all_tiled(s),
    ensures
        all_tiled(invalidated_next(s)),
{
    let n = invalidated_next(s);
    assert forall|i: int| 0 <= i < n.tracks.len() implies tiled(
        #[trigger] n.tracks[i],
        s.cfg.timeframes_ms@[i],
    ) by {
        assert(tiled(s.tracks[i], s.cfg.timeframes_ms@[i]));
        if s.live {
            lemma_same_span(s.tracks[i], n.tracks[i].cur, s.cfg.timeframes_ms@[i]);
            assert(n.tracks[i] == (TrackState { cur: n.tracks[i].cur, ..s.tracks[i] }));
        }
    }
}

proof fn lemma_run_tiled(s: MetricsState, inputs: Seq<MetricsInput>)
    requires
        all_tiled(s),
    ensures
        all_tiled(metrics_run(s, inputs).0),
        metrics_run(s, inputs).0.cfg == s.cfg,
    decreases inputs.len(),
{
    if inputs.len() > 0 {
        lemma_run_tiled(s, inputs.drop_last());
        let m = metrics_run(s, inputs.drop_last()).0;
        let n = metrics_take(m, inputs.last());
        match inputs.last() {
            MetricsInput::Batch { b } => {
                lemma_batch_tiled(m, b);
            },
            MetricsInput::Invalidate => {
                lemma_invalidated_tiled(m);
            },
            _ => {
                assert(n.tracks == m.tracks);
            },
        }
    }
}

/// Candles tile the time: those of a timeframe start at its multiples, each where the one
/// before ended, so that a quiet book has candles too; and the one in course holds the
/// instant of the last batch.
pub proof fn law_candles_tile_the_time(
    cfg: MetricsConfig,
    inputs: Seq<MetricsInput>,
    track: int,
)
    requires
        cfg.valid(),
        orderly_inputs(metrics_start(cfg), inputs),
        0 <= track < metrics_run(metrics_start(cfg), inputs).0.tracks.len(),
    ensures
        ({
            let m = metrics_run(metrics_start(cfg), inputs).0;
            let tr = m.tracks[track];
            &&& m.tracks.len() == cfg.timeframes_ms@.len()
            &&& tiled(tr, cfg.timeframes_ms@[track])
            &&& tr.cur.start <= m.now
            &&& m.now < tr.cur.end || tr.cur.end == u64::MAX
        }),
{
    let s = metrics_start(cfg);
    lemma_run_tiled(s, inputs);
    lemma_run_tells(s, inputs);
    let (m, h) = metrics_run(s, inputs);
    assert(track_true(m.tracks[track], h, m.now as int));
}

} // verus!

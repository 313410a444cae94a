//! What the metrics promise of executions: each candle counts exactly what its span saw.
//!
//! Every flow of a batch that the metrics take is one record: when the batch ended, the
//! bucket, and how much was executed there.

use crate::align::{BatchInfo, LevelFlow};
use crate::candle_view_laws::{executed_on, executed_terms, law_candle_volumes};
use crate::event::Side;
use crate::fixed::Px;
use crate::footprint::{
    advanced, batch_start, batch_touch, bucket_of, candle_next, candle_show, cells_next, closed_at,
    invalidated_next, joined, last_n, metrics_start, mid_bucket, opened, paused, position_from,
    process_next, qty_at, resume_next, resumed, rolled, touch_all, touch_next, walls_next,
    CandleState, CellState, MetricsConfig, MetricsState, Touch, Touched, TrackState,
};
use crate::num::clamp_i64;
use crate::ordmap::{
    find, holds, key_lt, lemma_drop_last, lemma_entry_found, lemma_put, put, rank, sorted,
};
use crate::sums::lemma_sum_same;
use crate::twa_laws::{
    lemma_batch_start, lemma_bucketed_sorted, lemma_cells_next, lemma_joined, lemma_opened_cells,
    lemma_run_tells, lemma_settled_find, lemma_walls_keep, metrics_run, metrics_take,
    orderly_inputs, tells, track_true, MetricsInput, Seg,
};
use vstd::prelude::*;

verus! {

/// An execution as the metrics take it.
pub struct Executed {
    /// End of its batch.
    pub t: u64,
    /// Its bucket.
    pub key: (Side, i64),
    /// How much.
    pub qty: int,
}

/// What was executed in a bucket in `[a, b)`.
pub open spec fn executed_in(r: Seq<Executed>, key: (Side, i64), a: int, b: int) -> int
    decreases r.len(),
{
    if r.len() == 0 {
        0
    } else {
        executed_in(r.drop_last(), key, a, b) + (if r.last().key == key && a <= r.last().t < b {
            r.last().qty
        } else {
            0
        })
    }
}

/// What was executed in `[a, b)`.
pub open spec fn total_in(r: Seq<Executed>, a: int, b: int) -> int
    decreases r.len(),
{
    if r.len() == 0 {
        0
    } else {
        total_in(r.drop_last(), a, b) + (if a <= r.last().t < b {
            r.last().qty
        } else {
            0
        })
    }
}

/// The records of some flows of a batch that ended at `t`.
pub open spec fn records(flows: Seq<LevelFlow>, t: u64, width: Px) -> Seq<Executed> {
    Seq::new(
        flows.len(),
        |i: int|
            Executed {
                t,
                key: (flows[i].side, bucket_of(flows[i].px, width)),
                qty: flows[i].executed.0 as int,
            },
    )
}

/// What the records grow by with an input.
pub open spec fn records_of(s: MetricsState, i: MetricsInput) -> Seq<Executed> {
    match i {
        MetricsInput::Batch { b } => if s.live {
            records(s.batch, b.end_ts_ms, s.cfg.bucket)
        } else {
            Seq::empty()
        },
        _ => Seq::empty(),
    }
}

/// The records after some inputs.
pub open spec fn executed_run(s: MetricsState, inputs: Seq<MetricsInput>) -> Seq<Executed>
    decreases inputs.len(),
{
    if inputs.len() == 0 {
        Seq::empty()
    } else {
        executed_run(s, inputs.drop_last()) + records_of(
            metrics_run(s, inputs.drop_last()).0,
            inputs.last(),
        )
    }
}

/// No executed quantity is negative.
pub open spec fn volumes(inputs: Seq<MetricsInput>) -> bool {
    forall|i: int|
        0 <= i < inputs.len() ==> match #[trigger] inputs[i] {
            MetricsInput::Flow { f } => f.executed.0 >= 0,
            _ => true,
        }
}

/// The executed quantity of some cells.
pub open spec fn cells_executed(cells: Seq<((Side, i64), CellState)>) -> int
    decreases cells.len(),
{
    if cells.len() == 0 {
        0
    } else {
        cells_executed(cells.drop_last()) + cells.last().1.executed
    }
}

/// After every instant.
pub open spec fn forever() -> int {
    0x1_0000_0000_0000_0000
}

/// No quantity is negative, and nothing is later than `t`.
spec fn proper(r: Seq<Executed>, t: int) -> bool {
    forall|i: int| 0 <= i < r.len() ==> (#[trigger] r[i]).qty >= 0 && r[i].t <= t
}

proof fn lemma_proper_prefix(r: Seq<Executed>, t: int)
    requires
        proper(r, t),
        r.len() > 0,
    ensures
        proper(r.drop_last(), t),
        r.last().qty >= 0,
        r.last().t <= t,
{
    let u = r.drop_last();
    assert(r[r.len() - 1].qty >= 0);
    assert forall|i: int| 0 <= i < u.len() implies (#[trigger] u[i]).qty >= 0 && u[i].t <= t by {
        assert(u[i] == r[i]);
    }
}

proof fn lemma_executed_nonneg(r: Seq<Executed>, key: (Side, i64), a: int, b: int, t: int)
    requires
        proper(r, t),
    ensures
        0 <= executed_in(r, key, a, b) <= total_in(r, a, b),
    decreases r.len(),
{
    if r.len() > 0 {
        lemma_proper_prefix(r, t);
        lemma_executed_nonneg(r.drop_last(), key, a, b, t);
    }
}

/// Nothing later than `t` is executed from after `t` on, and a span that reaches past `t`
/// may end anywhere after it.
proof fn lemma_executed_span(
    r: Seq<Executed>,
    key: (Side, i64),
    a: int,
    b: int,
    c: int,
    t: int,
)
    requires
        proper(r, t),
    ensures
        t < a ==> executed_in(r, key, a, b) == 0,
        t < b && t < c ==> executed_in(r, key, a, b) == executed_in(r, key, a, c),
    decreases r.len(),
{
    if r.len() > 0 {
        lemma_proper_prefix(r, t);
        lemma_executed_span(r.drop_last(), key, a, b, c, t);
    }
}

proof fn lemma_executed_join(
    r: Seq<Executed>,
    x: Seq<Executed>,
    key: (Side, i64),
    a: int,
    b: int,
)
    ensures
        executed_in(r + x, key, a, b) == executed_in(r, key, a, b) + executed_in(x, key, a, b),
        total_in(r + x, a, b) == total_in(r, a, b) + total_in(x, a, b),
    decreases x.len(),
{
    if x.len() == 0 {
        assert(r + x == r);
    } else {
        assert((r + x).drop_last() =~= r + x.drop_last());
        assert((r + x).last() == x.last());
        lemma_executed_join(r, x.drop_last(), key, a, b);
    }
}

/// Records from `t` on say nothing of a span that ended by then.
proof fn lemma_records_later(flows: Seq<LevelFlow>, t: u64, width: Px, key: (Side, i64), a: int, b: int)
    requires
        b <= t,
    ensures
        executed_in(records(flows, t, width), key, a, b) == 0,
    decreases flows.len(),
{
    if flows.len() > 0 {
        assert(records(flows, t, width).drop_last() =~= records(flows.drop_last(), t, width));
        lemma_records_later(flows.drop_last(), t, width, key, a, b);
    }
}

/// Executed in a bucket by some flows.
spec fn flows_executed(flows: Seq<LevelFlow>, width: Px, key: (Side, i64)) -> int {
    executed_in(records(flows, 0, width), key, 0, 1)
}

proof fn lemma_records_now(
    flows: Seq<LevelFlow>,
    t: u64,
    width: Px,
    key: (Side, i64),
    a: int,
    b: int,
)
    requires
        a <= t < b,
    ensures
        executed_in(records(flows, t, width), key, a, b) == flows_executed(flows, width, key),
    decreases flows.len(),
{
    if flows.len() > 0 {
        let u = flows.drop_last();
        assert(records(flows, t, width).drop_last() =~= records(u, t, width));
        assert(records(flows, 0, width).drop_last() =~= records(u, 0, width));
        lemma_records_now(u, t, width, key, a, b);
    }
}

/// No executed quantity of the flows is negative.
spec fn flow_volumes(flows: Seq<LevelFlow>) -> bool {
    forall|i: int| 0 <= i < flows.len() ==> (#[trigger] flows[i]).executed.0 >= 0
}

proof fn lemma_flows_nonneg(flows: Seq<LevelFlow>, width: Px, key: (Side, i64))
    requires
        flow_volumes(flows),
    ensures
        flows_executed(flows, width, key) >= 0,
{
    let r = records(flows, 0, width);
    assert(proper(r, 0)) by {
        assert forall|i: int| 0 <= i < r.len() implies (#[trigger] r[i]).qty >= 0 && r[i].t
            <= 0 by {
            assert(flows[i].executed.0 >= 0);
        }
    }
    lemma_executed_nonneg(r, key, 0, 1, 0);
}

/// What a batch executed in each bucket.
spec fn touch_counts(t: Touched, flows: Seq<LevelFlow>, width: Px) -> bool {
    &&& sorted(t.keys)
    &&& forall|key: (Side, i64)|
        #![trigger find(t.keys, key)]
        match find(t.keys, key) {
            Some(e) => e.executed == clamp_i64(flows_executed(flows, width, key)),
            None => flows_executed(flows, width, key) == 0,
        }
}

proof fn lemma_touch_counts(t0: Touched, flows: Seq<LevelFlow>, width: Px)
    requires
        t0.keys.len() == 0,
        flow_volumes(flows),
    ensures
        touch_counts(touch_all(t0, flows, width), flows, width),
    decreases flows.len(),
{
    if flows.len() > 0 {
        let u = flows.drop_last();
        let f = flows.last();
        assert(flow_volumes(u)) by {
            assert forall|i: int| 0 <= i < u.len() implies (#[trigger] u[i]).executed.0 >= 0 by {
                assert(u[i] == flows[i]);
            }
        }
        assert(flows[flows.len() - 1].executed.0 >= 0);
        lemma_touch_counts(t0, u, width);
        let t = touch_all(t0, u, width);
        let n = touch_next(t, f, width);
        let k = (f.side, bucket_of(f.px, width));
        let had = match find(t.keys, k) {
            Some(e) => e.executed,
            None => 0,
        };
        let v = choose|v: Touch|
            n.keys == #[trigger] put(t.keys, k, v) && v.executed == clamp_i64(
                had + f.executed.0,
            );
        lemma_put(t.keys, k, v);
        assert forall|key: (Side, i64)|
            #![trigger find(n.keys, key)]
            match find(n.keys, key) {
                Some(e) => e.executed == clamp_i64(flows_executed(flows, width, key)),
                None => flows_executed(flows, width, key) == 0,
            } by {
            assert(records(flows, 0, width).drop_last() =~= records(u, 0, width));
            assert(flows_executed(flows, width, key) == flows_executed(u, width, key) + (if key
                == k {
                f.executed.0 as int
            } else {
                0
            }));
            lemma_flows_nonneg(u, width, key);
            let before = find(t.keys, key);
            assert(find(put(t.keys, k, v), key) == (if key == k {
                Some(v)
            } else {
                find(t.keys, key)
            }));
        }
    }
}

/// The candle counts what was executed in each bucket from its start until `hi`.
spec fn candle_counts(c: CandleState, r: Seq<Executed>, hi: int) -> bool {
    forall|key: (Side, i64)|
        #![trigger find(c.cells, key)]
        match find(c.cells, key) {
            Some(x) => x.executed == clamp_i64(executed_in(r, key, c.start as int, hi)),
            None => executed_in(r, key, c.start as int, hi) == 0,
        }
}

/// The closed candles of a track count what was executed in their spans.
spec fn past_counts(past: Seq<CandleState>, r: Seq<Executed>) -> bool {
    forall|i: int|
        0 <= i < past.len() ==> candle_counts(#[trigger] past[i], r, past[i].end as int)
}

proof fn lemma_closed_counts(c: CandleState, r: Seq<Executed>, t: int)
    requires
        sorted(c.cells),
        candle_counts(c, r, forever()),
        proper(r, t),
        t < c.end,
    ensures
        candle_counts(closed_at(c, c.end), r, c.end as int),
{
    let p = closed_at(c, c.end);
    assert forall|key: (Side, i64)|
        #![trigger find(p.cells, key)]
        match find(p.cells, key) {
            Some(x) => x.executed == clamp_i64(executed_in(r, key, p.start as int, c.end as int)),
            None => executed_in(r, key, p.start as int, c.end as int) == 0,
        } by {
        lemma_settled_find(c.cells, c.end, c.live_since is Some, key);
        lemma_executed_span(r, key, c.start as int, c.end as int, forever(), t);
        let x = find(c.cells, key);
    }
}

proof fn lemma_opened_counts(
    bids: Seq<(i64, i64)>,
    asks: Seq<(i64, i64)>,
    tf: u64,
    start: u64,
    live_at: Option<u64>,
    r: Seq<Executed>,
    t: int,
)
    requires
        sorted(bids),
        sorted(asks),
        proper(r, t),
        t < start || r.len() == 0,
    ensures
        candle_counts(opened(bids, asks, tf, start, live_at), r, forever()),
        sorted(opened(bids, asks, tf, start, live_at).cells),
{
    let c = opened(bids, asks, tf, start, live_at);
    let ts = match live_at {
        Some(x) => x,
        None => start,
    };
    lemma_opened_cells(bids, asks, ts, (Side::Bid, 0));
    assert forall|key: (Side, i64)|
        #![trigger find(c.cells, key)]
        match find(c.cells, key) {
            Some(x) => x.executed == clamp_i64(executed_in(r, key, c.start as int, forever())),
            None => executed_in(r, key, c.start as int, forever()) == 0,
        } by {
        lemma_opened_cells(bids, asks, ts, key);
        lemma_executed_span(r, key, start as int, forever(), forever(), t);
    }
}

proof fn lemma_rolled_counts(
    bids: Seq<(i64, i64)>,
    asks: Seq<(i64, i64)>,
    keep: nat,
    tr: TrackState,
    r: Seq<Executed>,
    t: int,
    ts: u64,
)
    requires
        sorted(bids),
        sorted(asks),
        sorted(tr.cur.cells),
        tr.cur.tf > 0,
        proper(r, t),
        t < tr.cur.end || tr.cur.end == u64::MAX,
        candle_counts(tr.cur, r, forever()),
        past_counts(tr.past, r),
    ensures
        candle_counts(rolled(bids, asks, keep, tr, ts).cur, r, forever()),
        past_counts(rolled(bids, asks, keep, tr, ts).past, r),
    decreases u64::MAX - tr.cur.end,
{
    if !(ts < tr.cur.end || tr.cur.end == u64::MAX) {
        let end = tr.cur.end;
        let live_at = if tr.cur.live_since is Some {
            Some(end)
        } else {
            None
        };
        lemma_closed_counts(tr.cur, r, t);
        lemma_opened_counts(bids, asks, tr.cur.tf, end, live_at, r, t);
        let p = tr.past.push(closed_at(tr.cur, end));
        let next = TrackState {
            cur: opened(bids, asks, tr.cur.tf, end, live_at),
            past: last_n(p, keep),
        };
        assert forall|i: int| 0 <= i < next.past.len() implies candle_counts(
            #[trigger] next.past[i],
            r,
            next.past[i].end as int,
        ) by {
            let j = if p.len() <= keep {
                i
            } else {
                i + (p.len() - keep)
            };
            assert(next.past[i] == p[j]);
            if j < tr.past.len() {
                assert(p[j] == tr.past[j]);
            }
        }
        lemma_rolled_counts(bids, asks, keep, next, r, t, ts);
    }
}

proof fn lemma_resumed_counts(
    bids: Seq<(i64, i64)>,
    asks: Seq<(i64, i64)>,
    c: CandleState,
    r: Seq<Executed>,
    at: u64,
)
    requires
        sorted(bids),
        sorted(asks),
        sorted(c.cells),
        candle_counts(c, r, forever()),
    ensures
        candle_counts(resumed(bids, asks, c, at), r, forever()),
{
    let d = resumed(bids, asks, c, at);
    let cells = Seq::new(
        c.cells.len(),
        |i: int|
            {
                let (key, cell) = c.cells[i];
                let q = match key.0 {
                    Side::Bid => qty_at(bids, key.1),
                    Side::Ask => qty_at(asks, key.1),
                };
                (key, CellState { qty: q, last_ts: at, ..cell })
            },
    );
    assert forall|i: int, j: int| 0 <= i < j < cells.len() implies key_lt(
        #[trigger] cells[i].0,
        #[trigger] cells[j].0,
    ) by {
        assert(cells[i].0 == c.cells[i].0 && cells[j].0 == c.cells[j].0);
    }
    lemma_joined(cells, Side::Bid, bids, at);
    let mid = joined(cells, Side::Bid, bids, at);
    lemma_joined(mid, Side::Ask, asks, at);
    assert(d.cells == joined(mid, Side::Ask, asks, at));
    assert forall|key: (Side, i64)|
        #![trigger find(d.cells, key)]
        match find(d.cells, key) {
            Some(x) => x.executed == clamp_i64(executed_in(r, key, d.start as int, forever())),
            None => executed_in(r, key, d.start as int, forever()) == 0,
        } by {
        let before = find(c.cells, key);
        if holds(c.cells, key) {
            let i = rank(c.cells, key) as int;
            assert(cells[i].0 == key);
            lemma_entry_found(cells, i);
        }
        if holds(cells, key) {
            let i = rank(cells, key) as int;
            assert(c.cells[i].0 == key);
            lemma_entry_found(c.cells, i);
        }
        let m = find(mid, key);
        let f = find(joined(mid, Side::Ask, asks, at), key);
    }
}

/// The metrics count the records `r`.
spec fn counted(s: MetricsState, r: Seq<Executed>) -> bool {
    &&& proper(r, s.now as int)
    &&& flow_volumes(s.batch)
    &&& forall|i: int|
        0 <= i < s.tracks.len() ==> candle_counts((#[trigger] s.tracks[i]).cur, r, forever())
            && past_counts(s.tracks[i].past, r)
    &&& s.tracks.len() == 0 ==> s.cfg.timeframes_ms@.len() == 0 || r.len() == 0
}

proof fn lemma_start_counts(s: MetricsState, h: Seq<Seg>, r: Seq<Executed>, b: BatchInfo)
    requires
        tells(s, h),
        counted(s, r),
        s.live,
        b.end_ts_ms >= s.now,
    ensures
        ({
            let p = batch_start(s, b);
            forall|i: int|
                0 <= i < p.tracks.len() ==> candle_counts(
                    (#[trigger] p.tracks[i]).cur,
                    r,
                    forever(),
                ) && past_counts(p.tracks[i].past, r)
        }),
{
    let ts = b.end_ts_ms;
    let s1 = MetricsState { batch: Seq::empty(), ..s };
    let a = advanced(s1, ts);
    let x = if a.resume_pending {
        resume_next(a, ts)
    } else {
        a
    };
    let p = batch_start(s, b);
    lemma_bucketed_sorted(s.bids, s.cfg.bucket);
    lemma_bucketed_sorted(s.asks, s.cfg.bucket);
    lemma_batch_start(s, h, b);
    assert forall|i: int| 0 <= i < p.tracks.len() implies candle_counts(
        (#[trigger] p.tracks[i]).cur,
        r,
        forever(),
    ) && past_counts(p.tracks[i].past, r) by {
        let tr = a.tracks[i];
        if s.tracks.len() > 0 {
            assert(track_true(s.tracks[i], h, s.now as int));
            lemma_rolled_counts(
                s.bid_buckets,
                s.ask_buckets,
                s.cfg.keep_closed as nat,
                s.tracks[i],
                r,
                s.now as int,
                ts,
            );
            lemma_rolled_sorted(
                s.bid_buckets,
                s.ask_buckets,
                s.cfg.keep_closed as nat,
                s.tracks[i],
                ts,
            );
        } else {
            let tf = s.cfg.timeframes_ms@[i];
            assert(r.len() == 0);
            let start = ((ts / tf) * tf) as u64;
            lemma_opened_counts(
                s.bid_buckets,
                s.ask_buckets,
                tf,
                start,
                Some(ts),
                r,
                s.now as int,
            );
            let o = opened(s.bid_buckets, s.ask_buckets, tf, start, Some(ts));
            assert(tr.cur == (CandleState { clean: false, ..o }));
            lemma_stain_counts(o, r);
        }
        assert(candle_counts(tr.cur, r, forever()) && past_counts(tr.past, r));
        assert(sorted(tr.cur.cells));
        if a.resume_pending {
            lemma_resumed_counts(p.bid_buckets, p.ask_buckets, tr.cur, r, ts);
            assert(x.tracks[i].cur == resumed(p.bid_buckets, p.ask_buckets, tr.cur, ts));
        }
        assert(x.tracks[i].past == tr.past);
        lemma_stain_counts(x.tracks[i].cur, r);
    }
}

proof fn lemma_rolled_sorted(
    bids: Seq<(i64, i64)>,
    asks: Seq<(i64, i64)>,
    keep: nat,
    tr: TrackState,
    ts: u64,
)
    requires
        sorted(bids),
        sorted(asks),
        sorted(tr.cur.cells),
    ensures
        sorted(rolled(bids, asks, keep, tr, ts).cur.cells),
    decreases u64::MAX - tr.cur.end,
{
    if !(ts < tr.cur.end || tr.cur.end == u64::MAX || tr.cur.tf == 0) {
        let end = tr.cur.end;
        let live_at = if tr.cur.live_since is Some {
            Some(end)
        } else {
            None
        };
        lemma_opened_cells(bids, asks, end, (Side::Bid, 0));
        lemma_rolled_sorted(
            bids,
            asks,
            keep,
            TrackState {
                cur: opened(bids, asks, tr.cur.tf, end, live_at),
                past: last_n(tr.past.push(closed_at(tr.cur, end)), keep),
            },
            ts,
        );
    }
}

/// Whether a candle is clean says nothing of what it counts.
proof fn lemma_stain_counts(c: CandleState, r: Seq<Executed>)
    requires
        candle_counts(c, r, forever()),
    ensures
        candle_counts(CandleState { clean: false, ..c }, r, forever()),
{
    let d = CandleState { clean: false, ..c };
    assert forall|key: (Side, i64)|
        #![trigger find(d.cells, key)]
        match find(d.cells, key) {
            Some(x) => x.executed == clamp_i64(executed_in(r, key, d.start as int, forever())),
            None => executed_in(r, key, d.start as int, forever()) == 0,
        } by {
        let x = find(c.cells, key);
    }
}

/// A batch more.
proof fn lemma_batch_counted(s: MetricsState, h: Seq<Seg>, r: Seq<Executed>, b: BatchInfo)
    requires
        tells(s, h),
        counted(s, r),
        s.live,
        b.end_ts_ms >= s.now,
    ensures
        counted(process_next(s, b), r + records(s.batch, b.end_ts_ms, s.cfg.bucket)),
{
    let n = process_next(s, b);
    let ts = b.end_ts_ms;
    let width = s.cfg.bucket;
    let x = records(s.batch, ts, width);
    let r2 = r + x;
    let p = batch_start(s, b);
    lemma_batch_start(s, h, b);
    lemma_start_counts(s, h, r, b);
    let t0 = Touched {
        bids: p.bids,
        asks: p.asks,
        bid_buckets: p.bid_buckets,
        ask_buckets: p.ask_buckets,
        keys: Seq::empty(),
    };
    let t = batch_touch(p, s.batch);
    lemma_touch_counts(t0, s.batch, width);
    let q = MetricsState {
        bids: t.bids,
        asks: t.asks,
        bid_buckets: t.bid_buckets,
        ask_buckets: t.ask_buckets,
        ..p
    };
    let clean = b.contaminated is None;
    let w = match position_from(s.cfg.timeframes_ms@, s.cfg.wall_tf_ms, 0) {
        Some(wi) => if wi < q.tracks.len() {
            walls_next(q, wi, t.keys, clean, ts, mid_bucket(q))
        } else {
            q
        },
        None => q,
    };
    match position_from(s.cfg.timeframes_ms@, s.cfg.wall_tf_ms, 0) {
        Some(wi) => {
            lemma_walls_keep(q, wi, t.keys, clean, ts, mid_bucket(q));
        },
        None => {},
    }
    assert forall|i: int| 0 <= i < r2.len() implies (#[trigger] r2[i]).qty >= 0 && r2[i].t
        <= ts by {
        if i < r.len() {
            assert(r2[i] == r[i]);
        } else {
            assert(r2[i] == x[i - r.len()]);
            assert(s.batch[i - r.len()].executed.0 >= 0);
        }
    }
    let g = Seg { t: ts, live: true, bids: p.bid_buckets, asks: p.ask_buckets };
    let h1 = if s.resume_pending {
        h.push(g)
    } else {
        h
    };
    assert forall|i: int| 0 <= i < n.tracks.len() implies candle_counts(
        (#[trigger] n.tracks[i]).cur,
        r2,
        forever(),
    ) && past_counts(n.tracks[i].past, r2) by {
        let tr = p.tracks[i];
        assert(w.tracks[i] == tr);
        assert(track_true(tr, h1, ts as int));
        let c = tr.cur;
        let d = candle_next(c, t.keys, ts);
        let live = c.live_since is Some;
        lemma_cells_next(c.cells, t.keys, ts, live);
        assert forall|key: (Side, i64)|
            #![trigger find(d.cells, key)]
            match find(d.cells, key) {
                Some(y) => y.executed == clamp_i64(
                    executed_in(r2, key, d.start as int, forever()),
                ),
                None => executed_in(r2, key, d.start as int, forever()) == 0,
            } by {
            lemma_executed_join(r, x, key, c.start as int, forever());
            lemma_records_now(s.batch, ts, width, key, c.start as int, forever());
            lemma_executed_nonneg(r, key, c.start as int, forever(), s.now as int);
            lemma_flows_nonneg(s.batch, width, key);
            let before = find(c.cells, key);
            let k = find(t.keys, key);
            let f = find(cells_next(c.cells, t.keys, ts, live), key);
        }
        let past = tr.past;
        assert forall|j: int| 0 <= j < past.len() implies candle_counts(
            #[trigger] past[j],
            r2,
            past[j].end as int,
        ) by {
            let e = past[j];
            assert forall|key: (Side, i64)|
                #![trigger find(e.cells, key)]
                match find(e.cells, key) {
                    Some(y) => y.executed == clamp_i64(
                        executed_in(r2, key, e.start as int, e.end as int),
                    ),
                    None => executed_in(r2, key, e.start as int, e.end as int) == 0,
                } by {
                lemma_executed_join(r, x, key, e.start as int, e.end as int);
                lemma_records_later(s.batch, ts, width, key, e.start as int, e.end as int);
                assert(candle_counts(e, r, e.end as int));
                let y = find(e.cells, key);
            }
        }
    }
}

proof fn lemma_invalidated_counted(s: MetricsState, h: Seq<Seg>, r: Seq<Executed>)
    requires
        tells(s, h),
        counted(s, r),
    ensures
        counted(invalidated_next(s), r),
{
    let n = invalidated_next(s);
    assert forall|i: int| 0 <= i < n.tracks.len() implies candle_counts(
        (#[trigger] n.tracks[i]).cur,
        r,
        forever(),
    ) && past_counts(n.tracks[i].past, r) by {
        let c = s.tracks[i].cur;
        assert(track_true(s.tracks[i], h, s.now as int));
        if s.live {
            let d = paused(c, s.now);
            assert forall|key: (Side, i64)|
                #![trigger find(d.cells, key)]
                match find(d.cells, key) {
                    Some(y) => y.executed == clamp_i64(
                        executed_in(r, key, d.start as int, forever()),
                    ),
                    None => executed_in(r, key, d.start as int, forever()) == 0,
                } by {
                lemma_settled_find(c.cells, s.now, true, key);
                let y = find(c.cells, key);
            }
        }
    }
}

proof fn lemma_run_counted(s: MetricsState, inputs: Seq<MetricsInput>)
    requires
        tells(s, Seq::empty()),
        orderly_inputs(s, inputs),
        volumes(inputs),
        counted(s, Seq::empty()),
    ensures
        counted(metrics_run(s, inputs).0, executed_run(s, inputs)),
    decreases inputs.len(),
{
    if inputs.len() > 0 {
        let u = inputs.drop_last();
        assert(volumes(u)) by {
            assert forall|i: int| 0 <= i < u.len() implies match #[trigger] u[i] {
                MetricsInput::Flow { f } => f.executed.0 >= 0,
                _ => true,
            } by {
                assert(u[i] == inputs[i]);
            }
        }
        lemma_run_counted(s, u);
        lemma_run_tells(s, u);
        let (m, h) = metrics_run(s, u);
        let r = executed_run(s, u);
        let last = inputs[inputs.len() - 1];
        match inputs.last() {
            MetricsInput::Batch { b } => {
                if m.live {
                    lemma_batch_counted(m, h, r, b);
                } else {
                    assert(r + records_of(m, inputs.last()) == r);
                }
            },
            MetricsInput::Invalidate => {
                lemma_invalidated_counted(m, h, r);
                assert(r + records_of(m, inputs.last()) == r);
            },
            MetricsInput::Flow { f } => {
                assert(r + records_of(m, inputs.last()) == r);
                let n = metrics_take(m, inputs.last());
                assert forall|i: int| 0 <= i < n.batch.len() implies (#[trigger] n.batch[i]).executed.0
                    >= 0 by {
                    if i < m.batch.len() {
                        assert(n.batch[i] == m.batch[i]);
                    }
                }
            },
            MetricsInput::Rebuild { book } => {
                assert(r + records_of(m, inputs.last()) == r);
            },
        }
    }
}

/// Executed in the buckets of some cells.
spec fn cells_saw(cells: Seq<((Side, i64), CellState)>, r: Seq<Executed>, a: int, b: int) -> int
    decreases cells.len(),
{
    if cells.len() == 0 {
        0
    } else {
        cells_saw(cells.drop_last(), r, a, b) + executed_in(r, cells.last().0, a, b)
    }
}

proof fn lemma_cells_saw(cells: Seq<((Side, i64), CellState)>, r: Seq<Executed>, a: int, b: int)
    requires
        forall|i: int|
            0 <= i < cells.len() ==> (#[trigger] cells[i]).1.executed == executed_in(
                r,
                cells[i].0,
                a,
                b,
            ),
    ensures
        cells_executed(cells) == cells_saw(cells, r, a, b),
    decreases cells.len(),
{
    if cells.len() > 0 {
        let u = cells.drop_last();
        assert forall|i: int| 0 <= i < u.len() implies (#[trigger] u[i]).1.executed == executed_in(
            r,
            u[i].0,
            a,
            b,
        ) by {
            assert(u[i] == cells[i]);
        }
        lemma_cells_saw(u, r, a, b);
        assert(cells[cells.len() - 1].1.executed == executed_in(r, cells.last().0, a, b));
    }
}

/// A record more is seen once, where its bucket is there.
proof fn lemma_saw_one_more(cells: Seq<((Side, i64), CellState)>, r: Seq<Executed>, a: int, b: int)
    requires
        sorted(cells),
        r.len() > 0,
    ensures
        cells_saw(cells, r, a, b) == cells_saw(cells, r.drop_last(), a, b) + (if a <= r.last().t < b
            && holds(cells, r.last().key) {
            r.last().qty
        } else {
            0
        }),
    decreases cells.len(),
{
    if cells.len() > 0 {
        lemma_drop_last(cells);
        lemma_saw_one_more(cells.drop_last(), r, a, b);
        let k = r.last().key;
        assert(find(cells.drop_last(), k) == (if k == cells.last().0 {
            None
        } else {
            find(cells, k)
        }));
        assert(find(cells, cells.last().0) is Some);
    }
}

/// The buckets of the cells saw everything, where every other bucket saw nothing.
proof fn lemma_saw_all(
    cells: Seq<((Side, i64), CellState)>,
    r: Seq<Executed>,
    a: int,
    b: int,
    t: int,
)
    requires
        sorted(cells),
        proper(r, t),
        forall|key: (Side, i64)|
            !holds(cells, key) ==> #[trigger] executed_in(r, key, a, b) == 0,
    ensures
        cells_saw(cells, r, a, b) == total_in(r, a, b),
    decreases r.len(),
{
    if r.len() == 0 {
        lemma_saw_nothing(cells, r, a, b);
    } else {
        let u = r.drop_last();
        lemma_proper_prefix(r, t);
        assert forall|key: (Side, i64)| !holds(cells, key) implies #[trigger] executed_in(
            u,
            key,
            a,
            b,
        ) == 0 by {
            lemma_executed_nonneg(u, key, a, b, t);
            assert(executed_in(r, key, a, b) == 0);
        }
        lemma_saw_all(cells, u, a, b, t);
        lemma_saw_one_more(cells, r, a, b);
        let k = r.last().key;
        if !holds(cells, k) {
            assert(executed_in(r, k, a, b) == 0);
            assert(executed_in(u, k, a, b) == 0);
        }
    }
}

proof fn lemma_saw_nothing(cells: Seq<((Side, i64), CellState)>, r: Seq<Executed>, a: int, b: int)
    requires
        r.len() == 0,
    ensures
        cells_saw(cells, r, a, b) == 0,
    decreases cells.len(),
{
    if cells.len() > 0 {
        lemma_saw_nothing(cells.drop_last(), r, a, b);
    }
}

/// A candle that counts its records sums to all of them, while that fits.
proof fn lemma_candle_total(c: CandleState, r: Seq<Executed>, hi: int, t: int)
    requires
        sorted(c.cells),
        candle_counts(c, r, hi),
        proper(r, t),
        total_in(r, c.start as int, hi) <= i64::MAX,
    ensures
        cells_executed(c.cells) == total_in(r, c.start as int, hi),
{
    let a = c.start as int;
    assert forall|i: int| 0 <= i < c.cells.len() implies (#[trigger] c.cells[i]).1.executed
        == executed_in(r, c.cells[i].0, a, hi) by {
        lemma_entry_found(c.cells, i);
        lemma_executed_nonneg(r, c.cells[i].0, a, hi, t);
    }
    lemma_cells_saw(c.cells, r, a, hi);
    assert forall|key: (Side, i64)| !holds(c.cells, key) implies #[trigger] executed_in(
        r,
        key,
        a,
        hi,
    ) == 0 by {
        let x = find(c.cells, key);
    }
    lemma_saw_all(c.cells, r, a, hi, t);
}

/// The executions of a closed candle are exact: for every input that comes in order, each
/// bucket counts what was executed there in the batches that ended within the candle (up
/// to what its type holds), and the buckets together count all that was executed in them.
pub proof fn law_closed_executions_exact(
    cfg: MetricsConfig,
    inputs: Seq<MetricsInput>,
    track: int,
    candle: int,
    key: (Side, i64),
)
    requires
        cfg.valid(),
        orderly_inputs(metrics_start(cfg), inputs),
        volumes(inputs),
        0 <= track < metrics_run(metrics_start(cfg), inputs).0.tracks.len(),
        0 <= candle < metrics_run(metrics_start(cfg), inputs).0.tracks[track].past.len(),
    ensures
        ({
            let c = metrics_run(metrics_start(cfg), inputs).0.tracks[track].past[candle];
            let r = executed_run(metrics_start(cfg), inputs);
            let total = total_in(r, c.start as int, c.end as int);
            let here = executed_in(r, key, c.start as int, c.end as int);
            &&& match find(c.cells, key) {
                Some(cell) => cell.executed == clamp_i64(here),
                None => here == 0,
            }
            &&& total <= i64::MAX ==> cells_executed(c.cells) == total
        }),
{
    let s = metrics_start(cfg);
    lemma_run_tells(s, inputs);
    lemma_run_counted(s, inputs);
    let (m, h) = metrics_run(s, inputs);
    let r = executed_run(s, inputs);
    assert(track_true(m.tracks[track], h, m.now as int));
    let c = m.tracks[track].past[candle];
    assert(past_counts(m.tracks[track].past, r));
    assert(candle_counts(c, r, c.end as int));
    let x = find(c.cells, key);
    if total_in(r, c.start as int, c.end as int) <= i64::MAX {
        lemma_candle_total(c, r, c.end as int, m.now as int);
    }
}

/// The executions of the candle in course are exact too, from its start on.
pub proof fn law_current_executions_exact(
    cfg: MetricsConfig,
    inputs: Seq<MetricsInput>,
    track: int,
    key: (Side, i64),
)
    requires
        cfg.valid(),
        orderly_inputs(metrics_start(cfg), inputs),
        volumes(inputs),
        0 <= track < metrics_run(metrics_start(cfg), inputs).0.tracks.len(),
    ensures
        ({
            let c = metrics_run(metrics_start(cfg), inputs).0.tracks[track].cur;
            let r = executed_run(metrics_start(cfg), inputs);
            let total = total_in(r, c.start as int, forever());
            let here = executed_in(r, key, c.start as int, forever());
            &&& match find(c.cells, key) {
                Some(cell) => cell.executed == clamp_i64(here),
                None => here == 0,
            }
            &&& total <= i64::MAX ==> cells_executed(c.cells) == total
        }),
{
    let s = metrics_start(cfg);
    lemma_run_tells(s, inputs);
    lemma_run_counted(s, inputs);
    let (m, h) = metrics_run(s, inputs);
    let r = executed_run(s, inputs);
    assert(track_true(m.tracks[track], h, m.now as int));
    let c = m.tracks[track].cur;
    assert(candle_counts(c, r, forever()));
    let x = find(c.cells, key);
    if total_in(r, c.start as int, forever()) <= i64::MAX {
        lemma_candle_total(c, r, forever(), m.now as int);
    }
}

/// What was executed against a side in `[a, b)`: bought against the asks, sold against the
/// bids.
pub open spec fn taken_from(r: Seq<Executed>, side: Side, a: int, b: int) -> int
    decreases r.len(),
{
    if r.len() == 0 {
        0
    } else {
        taken_from(r.drop_last(), side, a, b) + (if r.last().key.0 == side && a <= r.last().t < b {
            r.last().qty
        } else {
            0
        })
    }
}

/// The records, with nothing executed against the other side.
spec fn one_side(r: Seq<Executed>, side: Side) -> Seq<Executed> {
    Seq::new(
        r.len(),
        |i: int|
            if r[i].key.0 == side {
                r[i]
            } else {
                Executed { qty: 0, ..r[i] }
            },
    )
}

proof fn lemma_one_side(r: Seq<Executed>, side: Side, key: (Side, i64), a: int, b: int)
    ensures
        executed_in(one_side(r, side), key, a, b) == (if key.0 == side {
            executed_in(r, key, a, b)
        } else {
            0
        }),
        total_in(one_side(r, side), a, b) == taken_from(r, side, a, b),
    decreases r.len(),
{
    if r.len() > 0 {
        lemma_one_side(r.drop_last(), side, key, a, b);
        assert(one_side(r, side).drop_last() =~= one_side(r.drop_last(), side));
    }
}

proof fn lemma_saw_side(
    cells: Seq<((Side, i64), CellState)>,
    r: Seq<Executed>,
    side: Side,
    a: int,
    b: int,
)
    requires
        forall|i: int|
            0 <= i < cells.len() ==> (#[trigger] cells[i]).1.executed == executed_in(
                r,
                cells[i].0,
                a,
                b,
            ),
    ensures
        cells_saw(cells, one_side(r, side), a, b) == executed_on(cells, side),
    decreases cells.len(),
{
    let f = executed_terms(cells, side);
    if cells.len() > 0 {
        let u = cells.drop_last();
        let g = executed_terms(u, side);
        assert forall|i: int| 0 <= i < u.len() implies f(i) == #[trigger] g(i) by {
            assert(u[i] == cells[i]);
        }
        lemma_sum_same(u.len() as int, f, g);
        assert forall|i: int| 0 <= i < u.len() implies (#[trigger] u[i]).1.executed == executed_in(
            r,
            u[i].0,
            a,
            b,
        ) by {
            assert(u[i] == cells[i]);
        }
        lemma_saw_side(u, r, side, a, b);
        assert(cells.last() == cells[cells.len() - 1]);
        lemma_one_side(r, side, cells.last().0, a, b);
    }
}

proof fn lemma_side_total(c: CandleState, r: Seq<Executed>, hi: int, t: int, side: Side)
    requires
        sorted(c.cells),
        candle_counts(c, r, hi),
        proper(r, t),
        total_in(r, c.start as int, hi) <= i64::MAX,
    ensures
        executed_on(c.cells, side) == taken_from(r, side, c.start as int, hi),
        0 <= taken_from(r, side, c.start as int, hi) <= total_in(r, c.start as int, hi),
        forall|i: int| 0 <= i < c.cells.len() ==> 0 <= (#[trigger] c.cells[i]).1.executed,
{
    let a = c.start as int;
    let o = one_side(r, side);
    lemma_taken_within(r, side, a, hi, t);
    assert forall|i: int| 0 <= i < c.cells.len() implies (#[trigger] c.cells[i]).1.executed
        == executed_in(r, c.cells[i].0, a, hi) && 0 <= c.cells[i].1.executed by {
        lemma_entry_found(c.cells, i);
        lemma_executed_nonneg(r, c.cells[i].0, a, hi, t);
    }
    lemma_saw_side(c.cells, r, side, a, hi);
    assert(proper(o, t)) by {
        assert forall|i: int| 0 <= i < o.len() implies (#[trigger] o[i]).qty >= 0 && o[i].t
            <= t by {
            assert(r[i].qty >= 0);
        }
    }
    assert forall|key: (Side, i64)| !holds(c.cells, key) implies #[trigger] executed_in(
        o,
        key,
        a,
        hi,
    ) == 0 by {
        let x = find(c.cells, key);
        lemma_one_side(r, side, key, a, hi);
    }
    lemma_saw_all(c.cells, o, a, hi, t);
    lemma_one_side(r, side, (side, 0i64), a, hi);
}

proof fn lemma_taken_within(r: Seq<Executed>, side: Side, a: int, b: int, t: int)
    requires
        proper(r, t),
    ensures
        0 <= taken_from(r, side, a, b) <= total_in(r, a, b),
    decreases r.len(),
{
    if r.len() > 0 {
        lemma_proper_prefix(r, t);
        lemma_taken_within(r.drop_last(), side, a, b, t);
        assert(r[r.len() - 1].qty >= 0);
    }
}

/// The volumes that a closed candle shows are exact: bought is all that was executed against
/// asks in the batches that ended within it, sold is all that was executed against bids, and
/// the delta is the first less the second.
pub proof fn law_closed_volumes_exact(
    cfg: MetricsConfig,
    inputs: Seq<MetricsInput>,
    track: int,
    candle: int,
    at: u64,
)
    requires
        cfg.valid(),
        orderly_inputs(metrics_start(cfg), inputs),
        volumes(inputs),
        0 <= track < metrics_run(metrics_start(cfg), inputs).0.tracks.len(),
        0 <= candle < metrics_run(metrics_start(cfg), inputs).0.tracks[track].past.len(),
        ({
            let c = metrics_run(metrics_start(cfg), inputs).0.tracks[track].past[candle];
            let r = executed_run(metrics_start(cfg), inputs);
            total_in(r, c.start as int, c.end as int) <= i64::MAX
        }),
    ensures
        ({
            let m = metrics_run(metrics_start(cfg), inputs).0;
            let c = m.tracks[track].past[candle];
            let r = executed_run(metrics_start(cfg), inputs);
            let v = candle_show(m, c, at);
            let bought = taken_from(r, Side::Ask, c.start as int, c.end as int);
            let sold = taken_from(r, Side::Bid, c.start as int, c.end as int);
            &&& v.buy_exec.0 == bought
            &&& v.sell_exec.0 == sold
            &&& v.delta.0 == bought - sold
        }),
{
    let s = metrics_start(cfg);
    lemma_run_tells(s, inputs);
    lemma_run_counted(s, inputs);
    let (m, h) = metrics_run(s, inputs);
    let r = executed_run(s, inputs);
    assert(track_true(m.tracks[track], h, m.now as int));
    let c = m.tracks[track].past[candle];
    assert(past_counts(m.tracks[track].past, r));
    assert(candle_counts(c, r, c.end as int));
    lemma_side_total(c, r, c.end as int, m.now as int, Side::Ask);
    lemma_side_total(c, r, c.end as int, m.now as int, Side::Bid);
    law_candle_volumes(m, c, at);
}

/// The volumes of the candle in course are exact too, from its start on.
pub proof fn law_current_volumes_exact(
    cfg: MetricsConfig,
    inputs: Seq<MetricsInput>,
    track: int,
    at: u64,
)
    requires
        cfg.valid(),
        orderly_inputs(metrics_start(cfg), inputs),
        volumes(inputs),
        0 <= track < metrics_run(metrics_start(cfg), inputs).0.tracks.len(),
        ({
            let c = metrics_run(metrics_start(cfg), inputs).0.tracks[track].cur;
            let r = executed_run(metrics_start(cfg), inputs);
            total_in(r, c.start as int, forever()) <= i64::MAX
        }),
    ensures
        ({
            let m = metrics_run(metrics_start(cfg), inputs).0;
            let c = m.tracks[track].cur;
            let r = executed_run(metrics_start(cfg), inputs);
            let v = candle_show(m, c, at);
            let bought = taken_from(r, Side::Ask, c.start as int, forever());
            let sold = taken_from(r, Side::Bid, c.start as int, forever());
            &&& v.buy_exec.0 == bought
            &&& v.sell_exec.0 == sold
            &&& v.delta.0 == bought - sold
        }),
{
    let s = metrics_start(cfg);
    lemma_run_tells(s, inputs);
    lemma_run_counted(s, inputs);
    let (m, h) = metrics_run(s, inputs);
    let r = executed_run(s, inputs);
    assert(track_true(m.tracks[track], h, m.now as int));
    let c = m.tracks[track].cur;
    assert(candle_counts(c, r, forever()));
    lemma_side_total(c, r, forever(), m.now as int, Side::Ask);
    lemma_side_total(c, r, forever(), m.now as int, Side::Bid);
    law_candle_volumes(m, c, at);
}

} // verus!

//! What the metrics promise: the time-weighted averages are exact.
//!
//! The history of the buckets is a sequence of segments: from an instant on, the
//! book is synchronised or not, and each bucket has a quantity. The area of a
//! bucket between two instants is the integral of its quantity over the time with
//! a synchronised book.

use crate::align::{BatchInfo, LevelFlow};
use crate::book::BookState;
use crate::event::Side;
use crate::fixed::{lemma_floor, Px};
use crate::footprint::{
    twa_at, tdiv, acc_at, advanced, batch_start, batch_touch, bucketed, bucket_of, candle_next,
    cell_next, cells_next, closed_at, first_candle, invalidated_next, joined, last_n, metrics_start,
    mid_bucket, new_cell, opened, paused, position_from, process_next, qty_at, rebuilt_next,
    resume_next, resumed, rolled, settled_cells, side_cells, touch_all, touch_next, walls_next,
    with_qty, CandleState, CellState, MetricsConfig, MetricsState, Touch, Touched, TrackState,
};
use crate::num::{clamp_i64, clamp_u64};
use crate::ordmap::{
    del, find, holds, key_lt, lemma_del, lemma_drop_last, lemma_entry_found, lemma_put, put, rank,
    sorted,
};
use vstd::prelude::*;

verus! {

/// From instant `t` on: whether the book is synchronised, and the quantities.
pub struct Seg {
    /// Since when.
    pub t: u64,
    /// The book is synchronised.
    pub live: bool,
    /// Quantities of the bids, by bucket.
    pub bids: Seq<(i64, i64)>,
    /// Quantities of the asks, by bucket.
    pub asks: Seq<(i64, i64)>,
}

/// The quantity of a bucket in a segment (zero without synchronisation).
pub open spec fn seg_qty(s: Seg, key: (Side, i64)) -> int {
    if s.live {
        match key.0 {
            Side::Bid => qty_at(s.bids, key.1) as int,
            Side::Ask => qty_at(s.asks, key.1) as int,
        }
    } else {
        0
    }
}

/// The later of two instants.
pub open spec fn later(a: int, b: int) -> int {
    if a < b {
        b
    } else {
        a
    }
}

/// The integral of the quantity of a bucket over `[a, b)`.
pub open spec fn integral(h: Seq<Seg>, key: (Side, i64), a: int, b: int) -> int
    decreases h.len(),
{
    if h.len() == 0 {
        0
    } else {
        let l = h.last();
        let m = later(l.t as int, a);
        integral(
            h.drop_last(),
            key,
            a,
            if b < l.t {
                b
            } else {
                l.t as int
            },
        ) + (if b > m {
            seg_qty(l, key) * (b - m)
        } else {
            0
        })
    }
}

/// The time with a synchronised book in `[a, b)`.
pub open spec fn live_time(h: Seq<Seg>, a: int, b: int) -> int
    decreases h.len(),
{
    if h.len() == 0 {
        0
    } else {
        let l = h.last();
        let m = later(l.t as int, a);
        live_time(
            h.drop_last(),
            a,
            if b < l.t {
                b
            } else {
                l.t as int
            },
        ) + (if b > m && l.live {
            b - m
        } else {
            0
        })
    }
}

/// The present quantity of a bucket.
pub open spec fn rate(h: Seq<Seg>, key: (Side, i64)) -> int {
    if h.len() == 0 {
        0
    } else {
        seg_qty(h.last(), key)
    }
}

/// The book is synchronised now.
pub open spec fn live_now(h: Seq<Seg>) -> bool {
    h.len() > 0 && h.last().live
}

/// When the present segment started.
pub open spec fn since(h: Seq<Seg>) -> int {
    if h.len() == 0 {
        0
    } else {
        h.last().t as int
    }
}

proof fn lemma_integral_empty(h: Seq<Seg>, key: (Side, i64), a: int, b: int)
    requires
        b <= a,
    ensures
        integral(h, key, a, b) == 0,
        live_time(h, a, b) == 0,
    decreases h.len(),
{
    if h.len() > 0 {
        let l = h.last();
        lemma_integral_empty(
            h.drop_last(),
            key,
            a,
            if b < l.t {
                b
            } else {
                l.t as int
            },
        );
        if l.t <= b {
            lemma_integral_empty(h.drop_last(), key, a, l.t as int);
        }
    }
}

/// Time goes on with the present quantity.
proof fn lemma_integral_later(h: Seq<Seg>, key: (Side, i64), a: int, t: int, u: int)
    requires
        since(h) <= t <= u,
        a <= t,
    ensures
        integral(h, key, a, u) == integral(h, key, a, t) + rate(h, key) * (u - t),
        live_time(h, a, u) == live_time(h, a, t) + (if live_now(h) {
            u - t
        } else {
            0
        }),
{
    if h.len() > 0 {
        let l = h.last();
        let m = later(l.t as int, a);
        let q = seg_qty(l, key);
        assert(m <= t);
        assert(q * (u - m) == q * (t - m) + q * (u - t)) by (nonlinear_arith);
        assert(q * 0 == 0) by (nonlinear_arith);
        if t == m {
            assert(q * (t - m) == 0) by (nonlinear_arith)
                requires
                    t == m,
            ;
        }
        if u == t {
            assert(q * (u - t) == 0) by (nonlinear_arith)
                requires
                    u == t,
            ;
        }
    } else {
        assert(0 * (u - t) == 0);
    }
}

/// A new segment does not change the past.
proof fn lemma_integral_push(h: Seq<Seg>, g: Seg, key: (Side, i64), a: int, b: int)
    requires
        b <= g.t,
    ensures
        integral(h.push(g), key, a, b) == integral(h, key, a, b),
        live_time(h.push(g), a, b) == live_time(h, a, b),
{
    assert(h.push(g).drop_last() =~= h);
}

/// An integral is no larger than the largest quantity times the time.
proof fn lemma_integral_bound(h: Seq<Seg>, key: (Side, i64), a: int, b: int)
    requires
        a <= b,
    ensures
        -0x8000_0000_0000_0000 * (b - a) <= integral(h, key, a, b) <= 0x8000_0000_0000_0000 * (b
            - a),
        0 <= live_time(h, a, b) <= b - a,
    decreases h.len(),
{
    if h.len() > 0 {
        let l = h.last();
        let c = if b < l.t {
            b
        } else {
            l.t as int
        };
        let m = later(l.t as int, a);
        let q = seg_qty(l, key);
        if c >= a {
            lemma_integral_bound(h.drop_last(), key, a, c);
        } else {
            lemma_integral_empty(h.drop_last(), key, a, c);
        }
        if b > m {
            assert(-0x8000_0000_0000_0000 * (b - m) <= q * (b - m) <= 0x8000_0000_0000_0000 * (b
                - m)) by (nonlinear_arith)
                requires
                    -0x8000_0000_0000_0000 <= q <= 0x7fff_ffff_ffff_ffff,
                    b > m,
            ;
        }
    }
}

/// The area of a bucket at `t`, in exact arithmetic.
pub open spec fn exact_acc(c: CandleState, cell: CellState, t: int) -> int {
    if c.live_since is Some {
        cell.acc + cell.qty * (t - cell.last_ts)
    } else {
        cell.acc as int
    }
}

/// At instant `t` the candle holds, for every bucket, the integral of its quantity
/// since the candle started, and the time observed.
pub open spec fn candle_true(c: CandleState, h: Seq<Seg>, t: int) -> bool {
    &&& sorted(c.cells)
    &&& c.start <= t
    &&& (c.live_since is Some) == live_now(h)
    &&& match c.live_since {
        Some(x) => x <= t && c.observed + (t - x) == live_time(h, c.start as int, t),
        None => c.observed == live_time(h, c.start as int, t),
    }
    &&& forall|key: (Side, i64)|
        #![trigger find(c.cells, key)]
        match find(c.cells, key) {
            Some(cell) => {
                &&& exact_acc(c, cell, t) == integral(h, key, c.start as int, t)
                &&& cell.last_ts <= t
                &&& live_now(h) ==> cell.qty == rate(h, key)
            },
            None => integral(h, key, c.start as int, t) == 0 && rate(h, key) == 0,
        }
}

/// A closed candle holds the integral of every bucket over its whole span.
pub open spec fn past_true(c: CandleState, h: Seq<Seg>) -> bool {
    &&& sorted(c.cells)
    &&& c.start <= c.end
    &&& c.live_since is None
    &&& c.observed == live_time(h, c.start as int, c.end as int)
    &&& forall|key: (Side, i64)|
        #![trigger find(c.cells, key)]
        match find(c.cells, key) {
            Some(cell) => cell.acc == integral(h, key, c.start as int, c.end as int),
            None => integral(h, key, c.start as int, c.end as int) == 0,
        }
}

proof fn lemma_candle_later(c: CandleState, h: Seq<Seg>, t: int, u: int)
    requires
        candle_true(c, h, t),
        since(h) <= t <= u,
    ensures
        candle_true(c, h, u),
{
    lemma_integral_later(h, (Side::Bid, 0), c.start as int, t, u);
    assert forall|key: (Side, i64)|
        #![trigger find(c.cells, key)]
        match find(c.cells, key) {
            Some(cell) => {
                &&& exact_acc(c, cell, u) == integral(h, key, c.start as int, u)
                &&& cell.last_ts <= u
                &&& live_now(h) ==> cell.qty == rate(h, key)
            },
            None => integral(h, key, c.start as int, u) == 0 && rate(h, key) == 0,
        } by {
        lemma_integral_later(h, key, c.start as int, t, u);
        match find(c.cells, key) {
            Some(cell) => {
                let q = cell.qty as int;
                let l = cell.last_ts as int;
                assert(q * (u - l) == q * (t - l) + q * (u - t)) by (nonlinear_arith);
                if !live_now(h) {
                    assert(rate(h, key) == 0);
                    assert(0 * (u - t) == 0);
                }
            },
            None => {
                assert(0 * (u - t) == 0);
            },
        }
    }
}

/// Within the range of instants nothing saturates.
proof fn lemma_acc_exact(c: CandleState, cell: CellState, h: Seq<Seg>, key: (Side, i64), t: u64)
    requires
        candle_true(c, h, t as int),
        find(c.cells, key) == Some(cell),
    ensures
        acc_at(cell, t, c.live_since is Some) == integral(h, key, c.start as int, t as int),
{
    lemma_integral_bound(h, key, c.start as int, t as int);
    assert(exact_acc(c, cell, t as int) == integral(h, key, c.start as int, t as int));
}

pub(crate) proof fn lemma_settled_find(
    cells: Seq<((Side, i64), CellState)>,
    at: u64,
    live: bool,
    key: (Side, i64),
)
    requires
        sorted(cells),
    ensures
        sorted(settled_cells(cells, at, live)),
        find(settled_cells(cells, at, live), key) == (match find(cells, key) {
            Some(c) => Some(CellState { acc: acc_at(c, at, live), last_ts: at, ..c }),
            None => None,
        }),
{
    let t = settled_cells(cells, at, live);
    assert forall|i: int, j: int| 0 <= i < j < t.len() implies key_lt(
        #[trigger] t[i].0,
        #[trigger] t[j].0,
    ) by {
        assert(t[i].0 == cells[i].0 && t[j].0 == cells[j].0);
    }
    if holds(cells, key) {
        let i = rank(cells, key) as int;
        assert(t[i].0 == cells[i].0);
        lemma_entry_found(t, i);
    }
    if holds(t, key) {
        let i = rank(t, key) as int;
        assert(t[i].0 == cells[i].0);
        lemma_entry_found(cells, i);
    }
}

proof fn lemma_closed_true(c: CandleState, h: Seq<Seg>)
    requires
        candle_true(c, h, c.end as int),
    ensures
        past_true(closed_at(c, c.end), h),
{
    let p = closed_at(c, c.end);
    let live = c.live_since is Some;
    lemma_integral_bound(h, (Side::Bid, 0), c.start as int, c.end as int);
    lemma_settled_find(c.cells, c.end, live, (Side::Bid, 0));
    assert forall|key: (Side, i64)|
        #![trigger find(p.cells, key)]
        match find(p.cells, key) {
            Some(cell) => cell.acc == integral(h, key, c.start as int, c.end as int),
            None => integral(h, key, c.start as int, c.end as int) == 0,
        } by {
        lemma_settled_find(c.cells, c.end, live, key);
        match find(c.cells, key) {
            Some(cell) => {
                lemma_acc_exact(c, cell, h, key, c.end);
            },
            None => {},
        }
    }
}

/// Losing synchronisation at `t` keeps what the candle holds.
proof fn lemma_paused_true(c: CandleState, h: Seq<Seg>, g: Seg, t: u64)
    requires
        candle_true(c, h, t as int),
        since(h) <= t,
        g.t == t,
        !g.live,
    ensures
        candle_true(paused(c, t), h.push(g), t as int),
{
    let p = paused(c, t);
    let h2 = h.push(g);
    let live = c.live_since is Some;
    lemma_integral_bound(h, (Side::Bid, 0), c.start as int, t as int);
    lemma_integral_push(h, g, (Side::Bid, 0), c.start as int, t as int);
    lemma_settled_find(c.cells, t, true, (Side::Bid, 0));
    assert forall|key: (Side, i64)|
        #![trigger find(p.cells, key)]
        match find(p.cells, key) {
            Some(cell) => {
                &&& exact_acc(p, cell, t as int) == integral(h2, key, p.start as int, t as int)
                &&& cell.last_ts <= t
                &&& live_now(h2) ==> cell.qty == rate(h2, key)
            },
            None => integral(h2, key, p.start as int, t as int) == 0 && rate(h2, key) == 0,
        } by {
        lemma_settled_find(c.cells, t, true, key);
        lemma_integral_push(h, g, key, c.start as int, t as int);
        match find(c.cells, key) {
            Some(cell) => {
                lemma_acc_exact(c, cell, h, key, t);
            },
            None => {},
        }
    }
}

/// The cells of a new candle are the buckets.
pub(crate) proof fn lemma_opened_cells(
    bids: Seq<(i64, i64)>,
    asks: Seq<(i64, i64)>,
    ts: u64,
    key: (Side, i64),
)
    requires
        sorted(bids),
        sorted(asks),
    ensures
        sorted(side_cells(Side::Bid, bids, ts) + side_cells(Side::Ask, asks, ts)),
        ({
            let cells = side_cells(Side::Bid, bids, ts) + side_cells(Side::Ask, asks, ts);
            let b = match key.0 {
                Side::Bid => find(bids, key.1),
                Side::Ask => find(asks, key.1),
            };
            find(cells, key) == (match b {
                Some(q) => Some(new_cell(q, ts)),
                None => None,
            })
        }),
{
    let x = side_cells(Side::Bid, bids, ts);
    let y = side_cells(Side::Ask, asks, ts);
    let cells = x + y;
    let n = bids.len() as int;
    assert forall|i: int, j: int| 0 <= i < j < cells.len() implies key_lt(
        #[trigger] cells[i].0,
        #[trigger] cells[j].0,
    ) by {
        if j < n {
            assert(key_lt(bids[i].0, bids[j].0));
        } else if i >= n {
            assert(key_lt(asks[i - n].0, asks[j - n].0));
        }
    }
    match key.0 {
        Side::Bid => {
            if holds(bids, key.1) {
                let i = rank(bids, key.1) as int;
                assert(cells[i] == x[i]);
                lemma_entry_found(cells, i);
            }
        },
        Side::Ask => {
            if holds(asks, key.1) {
                let i = rank(asks, key.1) as int;
                assert(cells[n + i] == y[i]);
                lemma_entry_found(cells, n + i);
            }
        },
    }
    if holds(cells, key) {
        let i = rank(cells, key) as int;
        if i < n {
            assert(cells[i] == x[i]);
            lemma_entry_found(bids, i);
        } else {
            assert(cells[i] == y[i - n]);
            lemma_entry_found(asks, i - n);
        }
    }
}

/// The present buckets are the ones of the last segment.
pub open spec fn current(h: Seq<Seg>, bids: Seq<(i64, i64)>, asks: Seq<(i64, i64)>) -> bool {
    live_now(h) ==> h.last().bids == bids && h.last().asks == asks
}

proof fn lemma_opened_true(
    bids: Seq<(i64, i64)>,
    asks: Seq<(i64, i64)>,
    h: Seq<Seg>,
    tf: u64,
    start: u64,
)
    requires
        sorted(bids),
        sorted(asks),
        current(h, bids, asks),
    ensures
        ({
            let live_at = if live_now(h) {
                Some(start)
            } else {
                None
            };
            candle_true(opened(bids, asks, tf, start, live_at), h, start as int)
        }),
{
    let live_at = if live_now(h) {
        Some(start)
    } else {
        None
    };
    let c = opened(bids, asks, tf, start, live_at);
    lemma_integral_empty(h, (Side::Bid, 0), start as int, start as int);
    lemma_opened_cells(bids, asks, start, (Side::Bid, 0));
    assert forall|key: (Side, i64)|
        #![trigger find(c.cells, key)]
        match find(c.cells, key) {
            Some(cell) => {
                &&& exact_acc(c, cell, start as int) == integral(
                    h,
                    key,
                    c.start as int,
                    start as int,
                )
                &&& cell.last_ts <= start
                &&& live_now(h) ==> cell.qty == rate(h, key)
            },
            None => integral(h, key, c.start as int, start as int) == 0 && rate(h, key) == 0,
        } by {
        lemma_opened_cells(bids, asks, start, key);
        lemma_integral_empty(h, key, start as int, start as int);
        match find(c.cells, key) {
            Some(cell) => {
                assert(cell.qty * 0 == 0);
            },
            None => {},
        }
    }
}

/// Every closed candle of a track is exact, and so is the one in progress at `t`.
pub open spec fn track_true(tr: TrackState, h: Seq<Seg>, t: int) -> bool {
    &&& candle_true(tr.cur, h, t)
    &&& t < tr.cur.end || tr.cur.end == u64::MAX
    &&& tr.cur.tf > 0
    &&& forall|i: int|
        0 <= i < tr.past.len() ==> past_true(#[trigger] tr.past[i], h) && tr.past[i].end <= t
}

proof fn lemma_rolled_true(
    bids: Seq<(i64, i64)>,
    asks: Seq<(i64, i64)>,
    keep: nat,
    tr: TrackState,
    h: Seq<Seg>,
    t: int,
    ts: u64,
)
    requires
        sorted(bids),
        sorted(asks),
        current(h, bids, asks),
        since(h) <= t <= ts,
        candle_true(tr.cur, h, t),
        t <= tr.cur.end,
        tr.cur.tf > 0,
        forall|i: int|
            0 <= i < tr.past.len() ==> past_true(#[trigger] tr.past[i], h) && tr.past[i].end <= t,
    ensures
        track_true(rolled(bids, asks, keep, tr, ts), h, ts as int),
    decreases u64::MAX - tr.cur.end,
{
    if ts < tr.cur.end || tr.cur.end == u64::MAX {
        lemma_candle_later(tr.cur, h, t, ts as int);
    } else {
        let end = tr.cur.end;
        let live_at = if tr.cur.live_since is Some {
            Some(end)
        } else {
            None
        };
        lemma_candle_later(tr.cur, h, t, end as int);
        lemma_closed_true(tr.cur, h);
        lemma_opened_true(bids, asks, h, tr.cur.tf, end);
        let p = tr.past.push(closed_at(tr.cur, end));
        let next = TrackState {
            cur: opened(bids, asks, tr.cur.tf, end, live_at),
            past: last_n(p, keep),
        };
        assert forall|i: int| 0 <= i < next.past.len() implies past_true(#[trigger] next.past[i], h)
            && next.past[i].end <= end by {
            let j = if p.len() <= keep {
                i
            } else {
                i + (p.len() - keep)
            };
            assert(next.past[i] == p[j]);
            if j < tr.past.len() {
                assert(p[j] == tr.past[j]);
            }
        }
        lemma_rolled_true(bids, asks, keep, next, h, end as int, ts);
    }
}

pub(crate) proof fn lemma_joined(
    cells: Seq<((Side, i64), CellState)>,
    side: Side,
    buckets: Seq<(i64, i64)>,
    at: u64,
)
    requires
        sorted(cells),
        sorted(buckets),
    ensures
        sorted(joined(cells, side, buckets, at)),
        forall|key: (Side, i64)|
            #![trigger find(joined(cells, side, buckets, at), key)]
            find(joined(cells, side, buckets, at), key) == (match find(cells, key) {
                Some(c) => Some(c),
                None => if key.0 == side && holds(buckets, key.1) {
                    Some(new_cell(qty_at(buckets, key.1), at))
                } else {
                    None
                },
            }),
    decreases buckets.len(),
{
    if buckets.len() > 0 {
        let u = buckets.drop_last();
        let (b, q) = buckets.last();
        lemma_drop_last(buckets);
        lemma_joined(cells, side, u, at);
        let s = joined(cells, side, u, at);
        lemma_put(s, (side, b), new_cell(q, at));
        assert forall|key: (Side, i64)|
            #![trigger find(joined(cells, side, buckets, at), key)]
            find(joined(cells, side, buckets, at), key) == (match find(cells, key) {
                Some(c) => Some(c),
                None => if key.0 == side && holds(buckets, key.1) {
                    Some(new_cell(qty_at(buckets, key.1), at))
                } else {
                    None
                },
            }) by {
            assert(find(s, key) == (match find(cells, key) {
                Some(c) => Some(c),
                None => if key.0 == side && holds(u, key.1) {
                    Some(new_cell(qty_at(u, key.1), at))
                } else {
                    None
                },
            }));
            assert(find(u, key.1) == (if key.1 == b {
                None
            } else {
                find(buckets, key.1)
            }));
            assert(find(put(s, (side, b), new_cell(q, at)), key) == (if key == (side, b) {
                Some(new_cell(q, at))
            } else {
                find(s, key)
            }));
            assert(find(s, (side, b)) == (match find(cells, (side, b)) {
                Some(c) => Some(c),
                None => if holds(u, b) {
                    Some(new_cell(qty_at(u, b), at))
                } else {
                    None
                },
            }));
            assert(find(u, b) is None);
        }
    }
}

/// A candle whose areas are exact at `t`, whatever its quantities.
pub open spec fn areas_true(c: CandleState, h: Seq<Seg>, t: int) -> bool {
    &&& sorted(c.cells)
    &&& c.start <= t
    &&& c.observed == live_time(h, c.start as int, t)
    &&& forall|key: (Side, i64)|
        #![trigger find(c.cells, key)]
        match find(c.cells, key) {
            Some(cell) => cell.acc == integral(h, key, c.start as int, t),
            None => integral(h, key, c.start as int, t) == 0,
        }
}

/// Coming back in sync at `t` goes on from exact areas with the new quantities.
proof fn lemma_resumed_true(
    bids: Seq<(i64, i64)>,
    asks: Seq<(i64, i64)>,
    c: CandleState,
    h: Seq<Seg>,
    g: Seg,
    t: u64,
)
    requires
        sorted(bids),
        sorted(asks),
        areas_true(c, h, t as int),
        g == (Seg { t, live: true, bids, asks }),
    ensures
        candle_true(resumed(bids, asks, c, t), h.push(g), t as int),
{
    let r = resumed(bids, asks, c, t);
    let h2 = h.push(g);
    let cells = Seq::new(
        c.cells.len(),
        |i: int|
            {
                let (key, cell) = c.cells[i];
                let q = match key.0 {
                    Side::Bid => qty_at(bids, key.1),
                    Side::Ask => qty_at(asks, key.1),
                };
                (key, CellState { qty: q, last_ts: t, ..cell })
            },
    );
    assert forall|i: int, j: int| 0 <= i < j < cells.len() implies key_lt(
        #[trigger] cells[i].0,
        #[trigger] cells[j].0,
    ) by {
        assert(cells[i].0 == c.cells[i].0 && cells[j].0 == c.cells[j].0);
    }
    lemma_joined(cells, Side::Bid, bids, t);
    let mid = joined(cells, Side::Bid, bids, t);
    lemma_joined(mid, Side::Ask, asks, t);
    lemma_integral_push(h, g, (Side::Bid, 0), c.start as int, t as int);
    assert(r.cells == joined(mid, Side::Ask, asks, t));
    assert forall|key: (Side, i64)|
        #![trigger find(r.cells, key)]
        match find(r.cells, key) {
            Some(cell) => {
                &&& exact_acc(r, cell, t as int) == integral(h2, key, r.start as int, t as int)
                &&& cell.last_ts <= t
                &&& live_now(h2) ==> cell.qty == rate(h2, key)
            },
            None => integral(h2, key, r.start as int, t as int) == 0 && rate(h2, key) == 0,
        } by {
        lemma_integral_push(h, g, key, c.start as int, t as int);
        let before = find(c.cells, key);
        let q = match key.0 {
            Side::Bid => qty_at(bids, key.1),
            Side::Ask => qty_at(asks, key.1),
        };
        assert(find(cells, key) == (match before {
            Some(cell) => Some(CellState { qty: q, last_ts: t, ..cell }),
            None => None,
        })) by {
            if holds(c.cells, key) {
                let i = rank(c.cells, key) as int;
                assert(cells[i].0 == key);
                lemma_entry_found(cells, i);
            }
            if holds(cells, key) {
                let i = rank(cells, key) as int;
                assert(c.cells[i].0 == key);
                lemma_entry_found(c.cells, i);
            }
        }
        let m = find(mid, key);
        let f = find(joined(mid, Side::Ask, asks, t), key);
        assert(q * 0 == 0);
        match f {
            Some(cell) => {
                assert(cell.last_ts == t);
                assert(cell.qty * (t - cell.last_ts) == 0) by (nonlinear_arith)
                    requires
                        t == cell.last_ts,
                ;
            },
            None => {},
        }
    }
}

proof fn lemma_with_qty(s: Seq<(i64, i64)>, k: i64, q: i64)
    requires
        sorted(s),
    ensures
        sorted(with_qty(s, k, q)),
        forall|x: i64|
            #![trigger qty_at(with_qty(s, k, q), x)]
            qty_at(with_qty(s, k, q), x) == (if x == k {
                q
            } else {
                qty_at(s, x)
            }),
{
    if q == 0 {
        lemma_del(s, k);
        assert forall|x: i64|
            #![trigger qty_at(with_qty(s, k, q), x)]
            qty_at(with_qty(s, k, q), x) == (if x == k {
                q
            } else {
                qty_at(s, x)
            }) by {
            assert(find(del(s, k), x) == (if x == k {
                None
            } else {
                find(s, x)
            }));
        }
    } else {
        lemma_put(s, k, q);
        assert forall|x: i64|
            #![trigger qty_at(with_qty(s, k, q), x)]
            qty_at(with_qty(s, k, q), x) == (if x == k {
                q
            } else {
                qty_at(s, x)
            }) by {
            assert(find(put(s, k, q), x) == (if x == k {
                Some(q)
            } else {
                find(s, x)
            }));
        }
    }
}

/// The quantity of a bucket.
pub open spec fn bucket_qty(t: Touched, key: (Side, i64)) -> i64 {
    qty_at(t.buckets(key.0), key.1)
}

/// What a batch did so far: each touched bucket knows its quantity before and now,
/// and the others are as they were.
pub open spec fn touches(t0: Touched, t: Touched) -> bool {
    &&& sorted(t.bid_buckets)
    &&& sorted(t.ask_buckets)
    &&& sorted(t.keys)
    &&& forall|key: (Side, i64)|
        #![trigger find(t.keys, key)]
        match find(t.keys, key) {
            Some(e) => e.prev == bucket_qty(t0, key) && e.new == bucket_qty(t, key),
            None => bucket_qty(t, key) == bucket_qty(t0, key),
        }
}

proof fn lemma_touch_next(t0: Touched, t: Touched, f: LevelFlow, width: Px)
    requires
        touches(t0, t),
    ensures
        touches(t0, touch_next(t, f, width)),
{
    let b = bucket_of(f.px, width);
    let key = (f.side, b);
    let u = touch_next(t, f, width);
    let old_level = qty_at(t.levels(f.side), f.px);
    let changes = f.q1.0 != old_level;
    let cur = qty_at(t.buckets(f.side), b);
    let before = match find(t.keys, key) {
        Some(e) => e,
        None => Touch {
            prev: cur,
            new: cur,
            executed: 0,
            rpi: 0,
            fills: 0,
            trades: 0,
            nv: 0,
            cm: 0,
            am: 0,
        },
    };
    let new = if changes {
        clamp_i64(before.new + clamp_i64(f.q1.0 - old_level)) as i64
    } else {
        before.new
    };
    lemma_with_qty(t.buckets(f.side), b, new);
    let put_after = Touch {
        prev: before.prev,
        new,
        executed: clamp_i64(before.executed + f.executed.0) as i64,
        rpi: clamp_i64(before.rpi + f.exec_rpi.0) as i64,
        fills: clamp_u64(before.fills + f.n_fills) as u64,
        trades: clamp_u64(before.trades + f.n_trades) as u64,
        nv: clamp_i64(before.nv + f.no_visible_min.0) as i64,
        cm: clamp_i64(before.cm + f.cancelado_min.0) as i64,
        am: clamp_i64(before.am + f.agregado_min.0) as i64,
    };
    lemma_put(t.keys, key, put_after);
    assert(u.keys == put(t.keys, key, put_after));
    assert forall|k: (Side, i64)|
        #![trigger find(u.keys, k)]
        match find(u.keys, k) {
            Some(e) => e.prev == bucket_qty(t0, k) && e.new == bucket_qty(u, k),
            None => bucket_qty(u, k) == bucket_qty(t0, k),
        } by {
        assert(find(put(t.keys, key, put_after), k) == (if k == key {
            Some(put_after)
        } else {
            find(t.keys, k)
        }));
        let x = find(t.keys, k);
        assert(bucket_qty(u, k) == (if k == key {
            new
        } else {
            bucket_qty(t, k)
        })) by {
            if k.0 == f.side && changes {
                assert(qty_at(with_qty(t.buckets(f.side), b, new), k.1) == (if k.1 == b {
                    new
                } else {
                    qty_at(t.buckets(f.side), k.1)
                }));
            }
        }
    }
}

proof fn lemma_touch_all(t0: Touched, flows: Seq<LevelFlow>, width: Px)
    requires
        sorted(t0.bid_buckets),
        sorted(t0.ask_buckets),
        t0.keys.len() == 0,
    ensures
        touches(t0, touch_all(t0, flows, width)),
    decreases flows.len(),
{
    if flows.len() > 0 {
        lemma_touch_all(t0, flows.drop_last(), width);
        lemma_touch_next(t0, touch_all(t0, flows.drop_last(), width), flows.last(), width);
    }
}

pub(crate) proof fn lemma_cells_next(
    cells: Seq<((Side, i64), CellState)>,
    keys: Seq<((Side, i64), Touch)>,
    ts: u64,
    live: bool,
)
    requires
        sorted(cells),
        sorted(keys),
    ensures
        sorted(cells_next(cells, keys, ts, live)),
        forall|key: (Side, i64)|
            #![trigger find(cells_next(cells, keys, ts, live), key)]
            find(cells_next(cells, keys, ts, live), key) == (match find(keys, key) {
                None => find(cells, key),
                Some(t) => Some(
                    cell_next(
                        match find(cells, key) {
                            Some(c) => c,
                            None => new_cell(t.prev, ts),
                        },
                        t,
                        ts,
                        live,
                    ),
                ),
            }),
    decreases keys.len(),
{
    if keys.len() > 0 {
        let u = keys.drop_last();
        let (last, t) = keys.last();
        lemma_drop_last(keys);
        lemma_cells_next(cells, u, ts, live);
        let s = cells_next(cells, u, ts, live);
        let before = match find(s, last) {
            Some(c) => c,
            None => new_cell(t.prev, ts),
        };
        lemma_put(s, last, cell_next(before, t, ts, live));
        assert(find(u, last) is None);
        assert(find(s, last) == find(cells, last));
        assert forall|key: (Side, i64)|
            #![trigger find(cells_next(cells, keys, ts, live), key)]
            find(cells_next(cells, keys, ts, live), key) == (match find(keys, key) {
                None => find(cells, key),
                Some(t) => Some(
                    cell_next(
                        match find(cells, key) {
                            Some(c) => c,
                            None => new_cell(t.prev, ts),
                        },
                        t,
                        ts,
                        live,
                    ),
                ),
            }) by {
            assert(find(u, key) == (if key == last {
                None
            } else {
                find(keys, key)
            }));
            assert(find(put(s, last, cell_next(before, t, ts, live)), key) == (if key == last {
                Some(cell_next(before, t, ts, live))
            } else {
                find(s, key)
            }));
            let x = find(s, key);
        }
    }
}

/// A batch goes on from exact areas with the quantities after it.
proof fn lemma_candle_next_true(
    c: CandleState,
    h: Seq<Seg>,
    g: Seg,
    keys: Seq<((Side, i64), Touch)>,
    ts: u64,
)
    requires
        candle_true(c, h, ts as int),
        live_now(h),
        since(h) <= ts,
        g.t == ts,
        g.live,
        sorted(keys),
        forall|key: (Side, i64)|
            #![trigger find(keys, key)]
            match find(keys, key) {
                Some(t) => t.prev == rate(h, key) && t.new == seg_qty(g, key),
                None => seg_qty(g, key) == rate(h, key),
            },
    ensures
        candle_true(candle_next(c, keys, ts), h.push(g), ts as int),
{
    let n = candle_next(c, keys, ts);
    let h2 = h.push(g);
    lemma_cells_next(c.cells, keys, ts, true);
    lemma_integral_push(h, g, (Side::Bid, 0), c.start as int, ts as int);
    assert forall|key: (Side, i64)|
        #![trigger find(n.cells, key)]
        match find(n.cells, key) {
            Some(cell) => {
                &&& exact_acc(n, cell, ts as int) == integral(h2, key, n.start as int, ts as int)
                &&& cell.last_ts <= ts
                &&& live_now(h2) ==> cell.qty == rate(h2, key)
            },
            None => integral(h2, key, n.start as int, ts as int) == 0 && rate(h2, key) == 0,
        } by {
        lemma_integral_push(h, g, key, c.start as int, ts as int);
        let before = find(c.cells, key);
        let k = find(keys, key);
        let f = find(cells_next(c.cells, keys, ts, true), key);
        match k {
            Some(t) => {
                match before {
                    Some(cell) => {
                        lemma_acc_exact(c, cell, h, key, ts);
                    },
                    None => {
                        assert(t.prev == 0);
                        assert(t.prev * clamp_u64(ts - ts) == 0) by (nonlinear_arith)
                            requires
                                t.prev == 0,
                        ;
                        assert(acc_at(new_cell(t.prev, ts), ts, true) == 0);
                    },
                }
                let cell = f->0;
                assert(cell.qty * (ts - cell.last_ts) == 0) by (nonlinear_arith)
                    requires
                        ts == cell.last_ts,
                ;
            },
            None => {},
        }
    }
}

/// The detector touches neither the candles nor the buckets.
pub(crate) proof fn lemma_walls_keep(
    s: MetricsState,
    wi: int,
    keys: Seq<((Side, i64), Touch)>,
    clean: bool,
    ts: u64,
    mid: Option<i64>,
)
    ensures
        walls_next(s, wi, keys, clean, ts, mid) == (MetricsState {
            windows: walls_next(s, wi, keys, clean, ts, mid).windows,
            walls: walls_next(s, wi, keys, clean, ts, mid).walls,
            wall_stats: walls_next(s, wi, keys, clean, ts, mid).wall_stats,
            ..s
        }),
    decreases keys.len(),
{
    if keys.len() > 0 {
        lemma_walls_keep(s, wi, keys.drop_last(), clean, ts, mid);
    }
}

pub(crate) proof fn lemma_bucketed_sorted(levels: Seq<(Px, i64)>, width: Px)
    ensures
        sorted(bucketed(levels, width)),
    decreases levels.len(),
{
    if levels.len() > 0 {
        lemma_bucketed_sorted(levels.drop_last(), width);
        let s = bucketed(levels.drop_last(), width);
        let b = bucket_of(levels.last().0, width);
        lemma_put(s, b, clamp_i64(qty_at(s, b) + levels.last().1) as i64);
    }
}

/// Nobody was ever synchronised.
pub open spec fn dead(h: Seq<Seg>) -> bool {
    forall|i: int| 0 <= i < h.len() ==> !(#[trigger] h[i]).live
}

proof fn lemma_dead(h: Seq<Seg>, key: (Side, i64), a: int, b: int)
    requires
        dead(h),
    ensures
        integral(h, key, a, b) == 0,
        live_time(h, a, b) == 0,
    decreases h.len(),
{
    if h.len() > 0 {
        let u = h.drop_last();
        assert(!h[h.len() - 1].live);
        assert forall|i: int| 0 <= i < u.len() implies !(#[trigger] u[i]).live by {
            assert(u[i] == h[i]);
        }
        let l = h.last();
        lemma_dead(
            u,
            key,
            a,
            if b < l.t {
                b
            } else {
                l.t as int
            },
        );
        assert(0 * (b - later(l.t as int, a)) == 0);
    }
}

/// The candles of the engine tell the history `h`.
pub open spec fn tells(s: MetricsState, h: Seq<Seg>) -> bool {
    &&& s.cfg.valid()
    &&& since(h) <= s.now
    &&& sorted(s.bid_buckets)
    &&& sorted(s.ask_buckets)
    &&& live_now(h) == (s.live && !s.resume_pending)
    &&& current(h, s.bid_buckets, s.ask_buckets)
    &&& forall|i: int|
        0 <= i < s.tracks.len() ==> track_true(#[trigger] s.tracks[i], h, s.now as int)
    &&& s.tracks.len() == 0 ==> s.cfg.timeframes_ms@.len() == 0 || dead(h)
}

/// The segments that a batch adds to the history: the rebuilt book, where it was
/// waiting for one, and the book after the batch.
pub open spec fn batch_segs(s: MetricsState, b: BatchInfo) -> Seq<Seg> {
    let p = batch_start(s, b);
    let n = process_next(s, b);
    let g = Seg { t: b.end_ts_ms, live: true, bids: n.bid_buckets, asks: n.ask_buckets };
    if !s.live {
        Seq::empty()
    } else if s.resume_pending {
        seq![
            Seg { t: b.end_ts_ms, live: true, bids: p.bid_buckets, asks: p.ask_buckets },
            g,
        ]
    } else {
        seq![g]
    }
}

proof fn lemma_track_push(tr: TrackState, h: Seq<Seg>, g: Seg, t: int)
    requires
        forall|i: int|
            0 <= i < tr.past.len() ==> past_true(#[trigger] tr.past[i], h) && tr.past[i].end <= t,
        t <= g.t,
    ensures
        forall|i: int|
            0 <= i < tr.past.len() ==> past_true(#[trigger] tr.past[i], h.push(g))
                && tr.past[i].end <= t,
{
    assert forall|i: int| 0 <= i < tr.past.len() implies past_true(#[trigger] tr.past[i], h.push(g))
        && tr.past[i].end <= t by {
        let c = tr.past[i];
        lemma_integral_push(h, g, (Side::Bid, 0), c.start as int, c.end as int);
        assert forall|key: (Side, i64)|
            #![trigger find(c.cells, key)]
            match find(c.cells, key) {
                Some(cell) => cell.acc == integral(h.push(g), key, c.start as int, c.end as int),
                None => integral(h.push(g), key, c.start as int, c.end as int) == 0,
            } by {
            lemma_integral_push(h, g, key, c.start as int, c.end as int);
        }
    }
}

/// The candles just before the flows of a batch, with the history up to them.
pub(crate) proof fn lemma_batch_start(s: MetricsState, h: Seq<Seg>, b: BatchInfo)
    requires
        tells(s, h),
        s.live,
        b.end_ts_ms >= s.now,
    ensures
        ({
            let p = batch_start(s, b);
            let ts = b.end_ts_ms;
            let g = Seg { t: ts, live: true, bids: p.bid_buckets, asks: p.ask_buckets };
            let h1 = if s.resume_pending {
                h.push(g)
            } else {
                h
            };
            &&& live_now(h1)
            &&& since(h1) <= ts
            &&& sorted(p.bid_buckets)
            &&& sorted(p.ask_buckets)
            &&& current(h1, p.bid_buckets, p.ask_buckets)
            &&& p.now == ts
            &&& p.live
            &&& !p.resume_pending
            &&& p.cfg == s.cfg
            &&& p.tracks.len() == 0 ==> s.cfg.timeframes_ms@.len() == 0
            &&& forall|i: int|
                0 <= i < p.tracks.len() ==> track_true(#[trigger] p.tracks[i], h1, ts as int)
        }),
{
    let ts = b.end_ts_ms;
    let s1 = MetricsState { batch: Seq::empty(), ..s };
    let a = advanced(s1, ts);
    let r = if a.resume_pending {
        resume_next(a, ts)
    } else {
        a
    };
    let p = batch_start(s, b);
    let g = Seg { t: ts, live: true, bids: p.bid_buckets, asks: p.ask_buckets };
    lemma_bucketed_sorted(s.bids, s.cfg.bucket);
    lemma_bucketed_sorted(s.asks, s.cfg.bucket);
    let h1 = if s.resume_pending {
        h.push(g)
    } else {
        h
    };
    assert forall|i: int| 0 <= i < p.tracks.len() implies track_true(
        #[trigger] p.tracks[i],
        h1,
        ts as int,
    ) by {
        if s.tracks.len() > 0 {
            assert(track_true(s.tracks[i], h, s.now as int));
            lemma_rolled_true(
                s.bid_buckets,
                s.ask_buckets,
                s.cfg.keep_closed as nat,
                s.tracks[i],
                h,
                s.now as int,
                ts,
            );
            let tr = a.tracks[i];
            assert(track_true(tr, h, ts as int));
            if s.resume_pending {
                lemma_areas(tr.cur, h, ts as int);
                lemma_resumed_true(p.bid_buckets, p.ask_buckets, tr.cur, h, g, ts);
                lemma_track_push(tr, h, g, ts as int);
                let x = resumed(p.bid_buckets, p.ask_buckets, tr.cur, ts);
                lemma_stain(x, h1, ts as int);
                assert(r.tracks[i] == (TrackState { cur: x, ..tr }));
                assert(p.tracks[i].past == tr.past);
                assert(p.tracks[i].cur == x || p.tracks[i].cur == (CandleState { clean: false, ..x }));
            } else {
                lemma_stain(tr.cur, h1, ts as int);
                assert(p.tracks[i].past == tr.past);
                assert(p.tracks[i].cur == tr.cur || p.tracks[i].cur == (CandleState {
                    clean: false,
                    ..tr.cur
                }));
            }
        } else {
            let tf = s.cfg.timeframes_ms@[i];
            let c = first_candle(s.bid_buckets, s.ask_buckets, true, tf, ts);
            assert(tf > 0);
            lemma_floor(ts as int, tf as int);
            let k = ts as int / tf as int;
            assert((k + 1) * tf == k * tf + tf) by (nonlinear_arith);
            assert(dead(h));
            assert(s.resume_pending) by {
                if !s.resume_pending {
                    assert(live_now(h));
                    assert(!h[h.len() - 1].live);
                }
            }
            lemma_opened_cells(s.bid_buckets, s.ask_buckets, ts, (Side::Bid, 0));
            lemma_dead(h, (Side::Bid, 0), c.start as int, ts as int);
            assert(areas_true(c, h, ts as int)) by {
                assert forall|key: (Side, i64)|
                    #![trigger find(c.cells, key)]
                    match find(c.cells, key) {
                        Some(cell) => cell.acc == integral(h, key, c.start as int, ts as int),
                        None => integral(h, key, c.start as int, ts as int) == 0,
                    } by {
                    lemma_opened_cells(s.bid_buckets, s.ask_buckets, ts, key);
                    lemma_dead(h, key, c.start as int, ts as int);
                }
            }
            lemma_resumed_true(p.bid_buckets, p.ask_buckets, c, h, g, ts);
            let x = resumed(p.bid_buckets, p.ask_buckets, c, ts);
            lemma_stain(x, h1, ts as int);
            assert(a.tracks[i] == (TrackState { cur: c, past: Seq::empty() }));
            assert(r.tracks[i] == (TrackState { cur: x, past: Seq::empty() }));
            assert(p.tracks[i].cur == x || p.tracks[i].cur == (CandleState { clean: false, ..x }));
            assert(candle_true(p.tracks[i].cur, h1, ts as int));
            assert(ts < p.tracks[i].cur.end || p.tracks[i].cur.end == u64::MAX);
        }
    }
}

/// Whether a candle is clean says nothing of its areas.
proof fn lemma_stain(c: CandleState, h: Seq<Seg>, t: int)
    requires
        candle_true(c, h, t),
    ensures
        candle_true(CandleState { clean: false, ..c }, h, t),
{
    let d = CandleState { clean: false, ..c };
    assert forall|key: (Side, i64)|
        #![trigger find(d.cells, key)]
        match find(d.cells, key) {
            Some(cell) => {
                &&& exact_acc(d, cell, t) == integral(h, key, d.start as int, t)
                &&& cell.last_ts <= t
                &&& live_now(h) ==> cell.qty == rate(h, key)
            },
            None => integral(h, key, d.start as int, t) == 0 && rate(h, key) == 0,
        } by {
        let x = find(c.cells, key);
    }
}

/// Without synchronisation the areas of a candle stand still.
proof fn lemma_areas(c: CandleState, h: Seq<Seg>, t: int)
    requires
        candle_true(c, h, t),
        !live_now(h),
    ensures
        areas_true(c, h, t),
{
    assert forall|key: (Side, i64)|
        #![trigger find(c.cells, key)]
        match find(c.cells, key) {
            Some(cell) => cell.acc == integral(h, key, c.start as int, t),
            None => integral(h, key, c.start as int, t) == 0,
        } by {
    }
}

/// A batch keeps the candles true to the history.
proof fn lemma_batch_tells(s: MetricsState, h: Seq<Seg>, b: BatchInfo)
    requires
        tells(s, h),
        b.end_ts_ms >= s.now,
    ensures
        tells(process_next(s, b), h + batch_segs(s, b)),
{
    let n = process_next(s, b);
    let ts = b.end_ts_ms;
    if !s.live {
        assert(h + batch_segs(s, b) == h);
    } else {
        lemma_batch_start(s, h, b);
        let p = batch_start(s, b);
        let t0 = Touched {
            bids: p.bids,
            asks: p.asks,
            bid_buckets: p.bid_buckets,
            ask_buckets: p.ask_buckets,
            keys: Seq::empty(),
        };
        let t = batch_touch(p, s.batch);
        lemma_touch_all(t0, s.batch, p.cfg.bucket);
        let q = MetricsState {
            bids: t.bids,
            asks: t.asks,
            bid_buckets: t.bid_buckets,
            ask_buckets: t.ask_buckets,
            ..p
        };
        let clean = b.contaminated is None;
        let w = match position_from(s.cfg.timeframes_ms@, s.cfg.wall_tf_ms, 0) {
            Some(wi) => if wi < q.tracks.len() {
                walls_next(q, wi, t.keys, clean, ts, mid_bucket(q))
            } else {
                q
            },
            None => q,
        };
        match position_from(s.cfg.timeframes_ms@, s.cfg.wall_tf_ms, 0) {
            Some(wi) => {
                lemma_walls_keep(q, wi, t.keys, clean, ts, mid_bucket(q));
            },
            None => {},
        }
        let g0 = Seg { t: ts, live: true, bids: p.bid_buckets, asks: p.ask_buckets };
        let h1 = if s.resume_pending {
            h.push(g0)
        } else {
            h
        };
        let g = Seg { t: ts, live: true, bids: n.bid_buckets, asks: n.ask_buckets };
        let h2 = h1.push(g);
        assert(h + batch_segs(s, b) == h2);
        assert(h1.last().bids == p.bid_buckets && h1.last().asks == p.ask_buckets);
        assert forall|key: (Side, i64)|
            #![trigger find(t.keys, key)]
            match find(t.keys, key) {
                Some(e) => e.prev == rate(h1, key) && e.new == seg_qty(g, key),
                None => seg_qty(g, key) == rate(h1, key),
            } by {
            assert(bucket_qty(t0, key) == rate(h1, key));
            assert(bucket_qty(t, key) == seg_qty(g, key));
        }
        assert forall|i: int| 0 <= i < n.tracks.len() implies track_true(
            #[trigger] n.tracks[i],
            h2,
            ts as int,
        ) by {
            let tr = p.tracks[i];
            assert(w.tracks[i] == tr);
            assert(track_true(tr, h1, ts as int));
            lemma_candle_next_true(tr.cur, h1, g, t.keys, ts);
            lemma_track_push(tr, h1, g, ts as int);
        }
    }
}

/// Losing synchronisation keeps the candles true to the history.
proof fn lemma_invalidate_tells(s: MetricsState, h: Seq<Seg>)
    requires
        tells(s, h),
        s.live,
    ensures
        tells(
            invalidated_next(s),
            h.push(Seg { t: s.now, live: false, bids: Seq::empty(), asks: Seq::empty() }),
        ),
{
    let n = invalidated_next(s);
    let g = Seg { t: s.now, live: false, bids: Seq::empty(), asks: Seq::empty() };
    let h2 = h.push(g);
    assert forall|i: int| 0 <= i < n.tracks.len() implies track_true(
        #[trigger] n.tracks[i],
        h2,
        s.now as int,
    ) by {
        let tr = s.tracks[i];
        assert(track_true(tr, h, s.now as int));
        lemma_paused_true(tr.cur, h, g, s.now);
        lemma_track_push(tr, h, g, s.now as int);
    }
    if s.tracks.len() == 0 && s.cfg.timeframes_ms@.len() > 0 {
        assert forall|i: int| 0 <= i < h2.len() implies !(#[trigger] h2[i]).live by {
            if i < h.len() {
                assert(h2[i] == h[i]);
            }
        }
    }
}

/// What reaches the metrics.
pub enum MetricsInput {
    /// The flow of a level.
    Flow {
        /// The flow.
        f: LevelFlow,
    },
    /// A closed batch.
    Batch {
        /// The batch.
        b: BatchInfo,
    },
    /// The book was rebuilt.
    Rebuild {
        /// The book.
        book: BookState,
    },
    /// Synchronisation was lost.
    Invalidate,
}

/// The metrics after an input.
pub open spec fn metrics_take(s: MetricsState, i: MetricsInput) -> MetricsState {
    match i {
        MetricsInput::Flow { f } => MetricsState { batch: s.batch.push(f), ..s },
        MetricsInput::Batch { b } => process_next(s, b),
        MetricsInput::Rebuild { book } => rebuilt_next(s, book),
        MetricsInput::Invalidate => invalidated_next(s),
    }
}

/// What the history grows by with an input: the book of buckets, in force from the
/// instant of the batch on, or nothing in force from the loss on.
pub open spec fn history_of(s: MetricsState, i: MetricsInput) -> Seq<Seg> {
    match i {
        MetricsInput::Batch { b } => batch_segs(s, b),
        MetricsInput::Invalidate => if s.live {
            seq![Seg { t: s.now, live: false, bids: Seq::empty(), asks: Seq::empty() }]
        } else {
            Seq::empty()
        },
        _ => Seq::empty(),
    }
}

/// The metrics after some inputs, with their history.
pub open spec fn metrics_run(s: MetricsState, inputs: Seq<MetricsInput>) -> (MetricsState, Seq<Seg>)
    decreases inputs.len(),
{
    if inputs.len() == 0 {
        (s, Seq::empty())
    } else {
        let (m, h) = metrics_run(s, inputs.drop_last());
        (metrics_take(m, inputs.last()), h + history_of(m, inputs.last()))
    }
}

/// Time does not go back, and the book is rebuilt only after a loss (or at the start).
pub open spec fn orderly_inputs(s: MetricsState, inputs: Seq<MetricsInput>) -> bool
    decreases inputs.len(),
{
    inputs.len() > 0 ==> {
        let (m, _) = metrics_run(s, inputs.drop_last());
        &&& orderly_inputs(s, inputs.drop_last())
        &&& match inputs.last() {
            MetricsInput::Batch { b } => b.end_ts_ms >= m.now,
            MetricsInput::Rebuild { .. } => !m.live,
            _ => true,
        }
    }
}

pub(crate) proof fn lemma_run_tells(s: MetricsState, inputs: Seq<MetricsInput>)
    requires
        tells(s, Seq::empty()),
        orderly_inputs(s, inputs),
    ensures
        tells(metrics_run(s, inputs).0, metrics_run(s, inputs).1),
    decreases inputs.len(),
{
    if inputs.len() > 0 {
        lemma_run_tells(s, inputs.drop_last());
        let (m, h) = metrics_run(s, inputs.drop_last());
        match inputs.last() {
            MetricsInput::Batch { b } => {
                lemma_batch_tells(m, h, b);
            },
            MetricsInput::Invalidate => {
                if m.live {
                    lemma_invalidate_tells(m, h);
                    let g = Seg { t: m.now, live: false, bids: Seq::empty(), asks: Seq::empty() };
                    assert(h + history_of(m, inputs.last()) == h.push(g));
                } else {
                    assert(h + history_of(m, inputs.last()) == h);
                    assert(metrics_take(m, inputs.last()).tracks == m.tracks);
                }
            },
            MetricsInput::Flow { f } => {
                assert(h + history_of(m, inputs.last()) == h);
            },
            MetricsInput::Rebuild { book } => {
                assert(h + history_of(m, inputs.last()) == h);
            },
        }
    }
}

/// The time-weighted average of a closed candle is exact: for every input that comes
/// in order, the area of each bucket is the sum, over the synchronised stretches of the
/// candle, of the quantity that the book showed times how long it showed it; the
/// observed time is how long the book was synchronised; and the average shown is their
/// quotient.
pub proof fn law_closed_twa_exact(
    cfg: MetricsConfig,
    inputs: Seq<MetricsInput>,
    track: int,
    candle: int,
    key: (Side, i64),
)
    requires
        cfg.valid(),
        orderly_inputs(metrics_start(cfg), inputs),
        0 <= track < metrics_run(metrics_start(cfg), inputs).0.tracks.len(),
        0 <= candle < metrics_run(metrics_start(cfg), inputs).0.tracks[track].past.len(),
    ensures
        ({
            let (m, h) = metrics_run(metrics_start(cfg), inputs);
            let c = m.tracks[track].past[candle];
            let area = integral(h, key, c.start as int, c.end as int);
            let seen = live_time(h, c.start as int, c.end as int);
            &&& c.observed == seen
            &&& match find(c.cells, key) {
                Some(cell) => cell.acc == area && twa_at(c, cell, c.end) == (if seen == 0 {
                    0
                } else {
                    clamp_i64(tdiv(area, seen))
                }),
                None => area == 0,
            }
        }),
{
    lemma_run_tells(metrics_start(cfg), inputs);
    let (m, h) = metrics_run(metrics_start(cfg), inputs);
    assert(track_true(m.tracks[track], h, m.now as int));
    let c = m.tracks[track].past[candle];
    assert(past_true(c, h));
    let x = find(c.cells, key);
}

/// The time-weighted average of the candle in course is exact too, at the instant of
/// the last batch.
pub proof fn law_current_twa_exact(
    cfg: MetricsConfig,
    inputs: Seq<MetricsInput>,
    track: int,
    key: (Side, i64),
)
    requires
        cfg.valid(),
        orderly_inputs(metrics_start(cfg), inputs),
        0 <= track < metrics_run(metrics_start(cfg), inputs).0.tracks.len(),
    ensures
        ({
            let (m, h) = metrics_run(metrics_start(cfg), inputs);
            let c = m.tracks[track].cur;
            let area = integral(h, key, c.start as int, m.now as int);
            let seen = live_time(h, c.start as int, m.now as int);
            &&& c.observed_at(m.now) == seen
            &&& match find(c.cells, key) {
                Some(cell) => twa_at(c, cell, m.now) == (if seen == 0 {
                    0
                } else {
                    clamp_i64(tdiv(area, seen))
                }),
                None => area == 0,
            }
        }),
{
    lemma_run_tells(metrics_start(cfg), inputs);
    let (m, h) = metrics_run(metrics_start(cfg), inputs);
    assert(track_true(m.tracks[track], h, m.now as int));
    let c = m.tracks[track].cur;
    lemma_integral_bound(h, key, c.start as int, m.now as int);
    match find(c.cells, key) {
        Some(cell) => {
            lemma_acc_exact(c, cell, h, key, m.now);
        },
        None => {},
    }
}

} // verus!

//! What holds of every batch of the synthetic market.

use crate::event::Level;
use crate::instrument::MarketKind;
use crate::num::{clamp_i64, clamp_u64};
use crate::ordmap::{
    del, find, holds, key_lt, lemma_del, lemma_entry_found, lemma_put, put, rank, sorted,
};
use crate::sim::{
    beyond, cancel_next, consumed, drawn, execution, extended, far_qty, front, lacking, limit_next,
    market_next, operation, operations, part, qty_drawn, seeded, step_batch, step_end, step_next,
    stored, sweep, truth_start, BatchRun, TruthState, STEP, TICK,
};
use vstd::prelude::*;

verus! {

/// Every quantity is positive.
pub open spec fn positive(v: Seq<(i64, i64)>) -> bool {
    forall|k: i64| (#[trigger] find(v, k)) matches Some(q) ==> q > 0
}

/// Every price is within `m` of zero.
pub open spec fn ranged(v: Seq<(i64, i64)>, m: int) -> bool {
    forall|k: i64| #[trigger] holds(v, k) ==> -m <= k <= m
}

/// Every bid is under every ask.
pub open spec fn apart(bids: Seq<(i64, i64)>, asks: Seq<(i64, i64)>) -> bool {
    forall|p: i64, q: i64| #[trigger] holds(bids, p) && #[trigger] holds(asks, q) ==> p < q
}

/// The market is well formed: sorted sides with positive quantities, not crossed, with
/// prices within `m` of zero.
pub open spec fn market_sound(s: TruthState, m: int) -> bool {
    &&& sorted(s.bids)
    &&& sorted(s.asks)
    &&& sorted(s.bid_reserve)
    &&& sorted(s.ask_reserve)
    &&& positive(s.bids)
    &&& positive(s.asks)
    &&& positive(s.bid_reserve)
    &&& positive(s.ask_reserve)
    &&& ranged(s.bids, m)
    &&& ranged(s.asks, m)
    &&& apart(s.bids, s.asks)
}

/// The prices not touched hold what they held.
pub open spec fn told(before: Seq<(i64, i64)>, after: Seq<(i64, i64)>, touched: Seq<(i64, bool)>) -> bool {
    &&& sorted(touched)
    &&& forall|k: i64|
        #![trigger find(after, k)]
        !holds(touched, k) ==> find(after, k) == find(before, k)
}

/// What holds of a batch in course that began at `s`.
pub open spec fn batch_sound(s: TruthState, b: BatchRun, m: int, start: u64, end: u64) -> bool {
    &&& market_sound(b.truth, m)
    &&& told(s.bids, b.truth.bids, b.bids)
    &&& told(s.asks, b.truth.asks, b.asks)
    &&& forall|i: int|
        0 <= i < b.trades.len() ==> start < (#[trigger] b.trades[i]).trade_ts_ms <= end
}

proof fn lemma_touch(before: Seq<(i64, i64)>, book: Seq<(i64, i64)>, touched: Seq<(i64, bool)>, px: i64)
    requires
        told(before, book, touched),
        sorted(book),
    ensures
        told(before, del(book, px), put(touched, px, true)),
        forall|q: i64| told(before, #[trigger] put(book, px, q), put(touched, px, true)),
{
    lemma_put(touched, px, true);
    lemma_del(book, px);
    let t = put(touched, px, true);
    assert forall|k: i64|
        #![trigger find(del(book, px), k)]
        !holds(t, k) implies find(del(book, px), k) == find(before, k) by {
        assert(find(t, k) == (if k == px {
            Some(true)
        } else {
            find(touched, k)
        }));
        let x = find(book, k);
    }
    assert forall|q: i64| told(before, #[trigger] put(book, px, q), t) by {
        lemma_put(book, px, q);
        assert forall|k: i64|
            #![trigger find(put(book, px, q), k)]
            !holds(t, k) implies find(put(book, px, q), k) == find(before, k) by {
            assert(find(t, k) == (if k == px {
                Some(true)
            } else {
                find(touched, k)
            }));
            let x = find(book, k);
        }
    }
}

proof fn lemma_put_side(v: Seq<(i64, i64)>, px: i64, q: i64, m: int)
    requires
        sorted(v),
        positive(v),
        ranged(v, m),
        q > 0,
        -m <= px <= m,
    ensures
        sorted(put(v, px, q)),
        positive(put(v, px, q)),
        ranged(put(v, px, q), m),
        forall|k: i64| #[trigger] holds(put(v, px, q), k) ==> k == px || holds(v, k),
        put(v, px, q).len() > 0,
{
    lemma_put(v, px, q);
    let w = put(v, px, q);
    assert forall|k: i64| (#[trigger] find(w, k)) is Some implies find(w, k)->0 > 0 by {
        let y = find(v, k);
        assert(find(w, k) == (if k == px {
            Some(q)
        } else {
            find(v, k)
        }));
    }
    assert forall|k: i64| #[trigger] holds(w, k) implies k == px || holds(v, k) by {
        assert(find(w, k) == (if k == px {
            Some(q)
        } else {
            find(v, k)
        }));
    }
    assert(find(w, px) == Some(q));
}

proof fn lemma_del_side(v: Seq<(i64, i64)>, px: i64, m: int)
    requires
        sorted(v),
        positive(v),
        ranged(v, m),
    ensures
        sorted(del(v, px)),
        positive(del(v, px)),
        ranged(del(v, px), m),
        forall|k: i64| #[trigger] holds(del(v, px), k) ==> holds(v, k),
{
    lemma_del(v, px);
    let w = del(v, px);
    assert forall|k: i64| (#[trigger] find(w, k)) is Some implies find(w, k)->0 > 0 by {
        let y = find(v, k);
        assert(find(w, k) == (if k == px {
            None
        } else {
            find(v, k)
        }));
    }
    assert forall|k: i64| #[trigger] holds(w, k) implies holds(v, k) by {
        assert(find(w, k) == (if k == px {
            None
        } else {
            find(v, k)
        }));
    }
}

proof fn lemma_put_reserve(v: Seq<(i64, i64)>, px: i64, q: i64)
    requires
        sorted(v),
        positive(v),
        q > 0,
    ensures
        sorted(put(v, px, q)),
        positive(put(v, px, q)),
{
    lemma_put(v, px, q);
    let w = put(v, px, q);
    assert forall|k: i64| (#[trigger] find(w, k)) is Some implies find(w, k)->0 > 0 by {
        let y = find(v, k);
        assert(find(w, k) == (if k == px {
            Some(q)
        } else {
            find(v, k)
        }));
    }
}

proof fn lemma_del_reserve(v: Seq<(i64, i64)>, px: i64)
    requires
        sorted(v),
        positive(v),
    ensures
        sorted(del(v, px)),
        positive(del(v, px)),
{
    lemma_del(v, px);
    let w = del(v, px);
    assert forall|k: i64| (#[trigger] find(w, k)) is Some implies find(w, k)->0 > 0 by {
        let y = find(v, k);
        assert(find(w, k) == (if k == px {
            None
        } else {
            find(v, k)
        }));
    }
}

/// The ends of a sorted side bound its prices.
proof fn lemma_ends(v: Seq<(i64, i64)>)
    requires
        sorted(v),
        v.len() > 0,
    ensures
        holds(v, v[0].0),
        holds(v, v.last().0),
        forall|k: i64| #[trigger] holds(v, k) ==> v[0].0 <= k <= v.last().0,
{
    lemma_entry_found(v, 0);
    lemma_entry_found(v, v.len() - 1);
    assert forall|k: i64| #[trigger] holds(v, k) implies v[0].0 <= k <= v.last().0 by {
        let i = rank(v, k) as int;
        assert(v[i].0 == k);
        if i > 0 {
            assert(key_lt(v[0].0, v[i].0));
        }
        if i < v.len() - 1 {
            assert(key_lt(v[i].0, v[v.len() - 1].0));
        }
    }
}

proof fn lemma_qty_positive(x: u64)
    ensures
        STEP <= qty_drawn(x).1 <= 220_000 * STEP,
{
    let (x1, r) = drawn(x, 1000);
    let (a, u) = drawn(x1, 2_000);
    let (b, v) = drawn(x1, 20_000);
    let (c, w) = drawn(x1, 200_000);
}

/// A wider bound is a bound.
proof fn lemma_widen(s: TruthState, b: BatchRun, m: int, n: int, start: u64, end: u64)
    requires
        batch_sound(s, b, m, start, end),
        m <= n,
    ensures
        batch_sound(s, b, n, start, end),
{
}

/// A price that goes on a side without crossing the other.
pub open spec fn fits_side(s: TruthState, bid: bool, px: i64) -> bool {
    if bid {
        forall|q: i64| #[trigger] holds(s.asks, q) ==> px < q
    } else {
        forall|p: i64| #[trigger] holds(s.bids, p) ==> p < px
    }
}

proof fn lemma_set(s: TruthState, b: BatchRun, bid: bool, px: i64, q: i64, m: int, start: u64, end: u64)
    requires
        batch_sound(s, b, m, start, end),
        q > 0,
        -m <= px <= m,
        fits_side(b.truth, bid, px),
    ensures
        batch_sound(
            s,
            b.with(b.truth.with_side(bid, put(b.truth.side(bid), px, q))).touch(bid, px),
            m,
            start,
            end,
        ),
{
    lemma_put_side(b.truth.side(bid), px, q, m);
    if bid {
        lemma_touch(s.bids, b.truth.bids, b.bids, px);
    } else {
        lemma_touch(s.asks, b.truth.asks, b.asks, px);
    }
}

proof fn lemma_remove(s: TruthState, b: BatchRun, bid: bool, px: i64, m: int, start: u64, end: u64)
    requires
        batch_sound(s, b, m, start, end),
    ensures
        batch_sound(
            s,
            b.with(b.truth.with_side(bid, del(b.truth.side(bid), px))).touch(bid, px),
            m,
            start,
            end,
        ),
{
    lemma_del_side(b.truth.side(bid), px, m);
    if bid {
        lemma_touch(s.bids, b.truth.bids, b.bids, px);
    } else {
        lemma_touch(s.asks, b.truth.asks, b.asks, px);
    }
}

/// The price around which an empty side starts again.
pub const RESTART: i64 = 15_000_000_000;

/// Prices far from the limits of the machine.
pub open spec fn room(m: int) -> bool {
    100_000_000_000 <= m <= 0x3000_0000_0000_0000
}

proof fn lemma_limit(s: TruthState, b: BatchRun, bid: bool, m: int, start: u64, end: u64)
    requires
        batch_sound(s, b, m, start, end),
        room(m),
    ensures
        batch_sound(s, limit_next(b, bid), m + 80 * TICK, start, end),
{
    reveal(limit_next);
    let t = b.truth;
    let bb = t.best_bid();
    let ba = t.best_ask();
    if t.bids.len() > 0 {
        lemma_ends(t.bids);
    }
    if t.asks.len() > 0 {
        lemma_ends(t.asks);
    }
    let (x1, near) = drawn(t.rng, 100);
    let (x2, dist) = if near < 70 {
        drawn(x1, 6)
    } else {
        drawn(x1, 80)
    };
    assert(dist < 80);
    let wide = clamp_i64(ba - bb) > TICK;
    let (x3, quote) = if wide {
        drawn(x2, 100)
    } else {
        (x2, 100u64)
    };
    let away = if bid {
        clamp_i64(bb - dist * TICK)
    } else {
        clamp_i64(ba + dist * TICK)
    };
    let edge = if bid {
        clamp_i64(ba - TICK)
    } else {
        clamp_i64(bb + TICK)
    };
    let px = (if wide && quote < 60 {
        if bid {
            clamp_i64(bb + TICK)
        } else {
            clamp_i64(ba - TICK)
        }
    } else if bid {
        if away < edge {
            away
        } else {
            edge
        }
    } else if away > edge {
        away
    } else {
        edge
    }) as i64;
    let (x4, q) = qty_drawn(x3);
    lemma_qty_positive(x3);
    let cur = find(t.side(bid), px);
    let level = clamp_i64(stored(t.side(bid), px) + q) as i64;
    assert(level > 0);
    let n = m + 80 * TICK;
    lemma_widen(s, b, m, n, start, end);
    assert(-n <= px <= n);
    assert(fits_side(t, bid, px)) by {
        if bid {
            assert forall|k: i64| #[trigger] holds(t.asks, k) implies px < k by {
                assert(t.asks.len() > 0);
            }
        } else {
            assert forall|k: i64| #[trigger] holds(t.bids, k) implies k < px by {
                assert(t.bids.len() > 0);
            }
        }
    }
    lemma_set(s, b, bid, px, level, n, start, end);
    let (x5, ice) = drawn(x4, 100);
    let (x6, r) = qty_drawn(x5);
    lemma_qty_positive(x5);
    let had = find(t.reserve(bid), px);
    let hidden = clamp_i64(stored(t.reserve(bid), px) + r * 5) as i64;
    assert(hidden > 0);
    lemma_put_reserve(t.reserve(bid), px, hidden);
}

proof fn lemma_cancel(s: TruthState, b: BatchRun, bid: bool, m: int, start: u64, end: u64)
    requires
        batch_sound(s, b, m, start, end),
    ensures
        batch_sound(s, cancel_next(b, bid), m, start, end),
{
    reveal(cancel_next);
    let t = b.truth;
    let book = t.side(bid);
    if book.len() > 0 {
        let depth = if book.len() < 30 {
            book.len() as u64
        } else {
            30u64
        };
        let (x1, idx) = drawn(t.rng, depth);
        assert(idx < depth);
        let at = if bid {
            book.len() - 1 - idx
        } else {
            idx as int
        };
        let (px, cur) = book[at];
        lemma_entry_found(book, at);
        assert(find(book, px) == Some(cur));
        let (x2, all) = drawn(x1, 100);
        let (y, share) = drawn(x2, 90);
        let (x3, cut) = if all < 25 {
            (x2, cur as int)
        } else {
            (y, part(cur, share))
        };
        let left = cur - cut;
        let u = b.with(TruthState { rng: x3, ..t });
        assert(batch_sound(s, u, m, start, end));
        if left <= 0 {
            lemma_remove(s, u, bid, px, m, start, end);
            lemma_del_reserve(t.reserve(bid), px);
        } else {
            assert(cut >= 0) by {
                if all >= 25 {
                    let k = cur as int / STEP as int;
                    let sh = 1 + share as int;
                    assert(k * sh >= 0) by (nonlinear_arith)
                        requires
                            k >= 0,
                            sh >= 1,
                    ;
                }
            }
            assert(left <= i64::MAX);
            lemma_fits_own(t, bid, px);
            lemma_set(s, u, bid, px, left as i64, m, start, end);
        }
    }
}

/// A price that stands on a side fits it.
proof fn lemma_fits_own(s: TruthState, bid: bool, px: i64)
    requires
        apart(s.bids, s.asks),
        holds(s.side(bid), px),
    ensures
        fits_side(s, bid, px),
{
}

/// A level that runs out and reloads from its reserve.
proof fn lemma_reload(
    s: TruthState,
    b: BatchRun,
    bid: bool,
    px: i64,
    res: i64,
    m: int,
    start: u64,
    end: u64,
)
    requires
        batch_sound(s, b, m, start, end),
        holds(b.truth.side(bid), px),
        find(b.truth.reserve(bid), px) == Some(res),
        -m <= px <= m,
    ensures
        ({
            let u = b.truth;
            let refill = if res < 20_000 * STEP {
                res
            } else {
                (20_000 * STEP) as i64
            };
            let r = del(u.reserve(bid), px);
            let t = u.with_side(bid, put(del(u.side(bid), px), px, refill));
            let n = if res > refill {
                t.with_reserve(bid, put(r, px, (res - refill) as i64))
            } else {
                t.with_reserve(bid, r)
            };
            batch_sound(s, b.with(n).touch(bid, px), m, start, end)
        }),
{
    let u = b.truth;
    let book = u.side(bid);
    let refill = if res < 20_000 * STEP {
        res
    } else {
        (20_000 * STEP) as i64
    };
    assert(res > 0);
    lemma_fits_own(u, bid, px);
    lemma_remove(s, b, bid, px, m, start, end);
    let d = b.with(u.with_side(bid, del(book, px))).touch(bid, px);
    lemma_set(s, d, bid, px, refill, m, start, end);
    lemma_touch_twice(b.touched(bid), px);
    lemma_del_reserve(u.reserve(bid), px);
    if res > refill {
        lemma_put_reserve(del(u.reserve(bid), px), px, (res - refill) as i64);
    }
    let e = d.with(d.truth.with_side(bid, put(d.truth.side(bid), px, refill))).touch(bid, px);
    assert(e.touched(bid) == d.touched(bid));
}

proof fn lemma_consumed(
    s: TruthState,
    b: BatchRun,
    bid: bool,
    take: i64,
    m: int,
    start: u64,
    end: u64,
)
    requires
        batch_sound(s, b, m, start, end),
        front(b.truth, bid) is Some,
        0 < take <= (front(b.truth, bid)->0).1,
    ensures
        ({
            let (px, avail) = front(b.truth, bid)->0;
            batch_sound(
                s,
                b.with(consumed(b.truth, bid, px, avail, take)).touch(bid, px),
                m,
                start,
                end,
            )
        }),
{
    let u = b.truth;
    let (px, avail) = front(u, bid)->0;
    lemma_ends(u.side(bid));
    lemma_fits_own(u, bid, px);
    if avail - take == 0 {
        match find(u.reserve(bid), px) {
            None => {
                lemma_remove(s, b, bid, px, m, start, end);
            },
            Some(res) => {
                lemma_reload(s, b, bid, px, res, m, start, end);
            },
        }
    } else {
        lemma_set(s, b, bid, px, (avail - take) as i64, m, start, end);
    }
}

proof fn lemma_execution(
    s: TruthState,
    b: BatchRun,
    bid: bool,
    take: i64,
    t: u64,
    m: int,
    start: u64,
    end: u64,
)
    requires
        batch_sound(s, b, m, start, end),
        front(b.truth, bid) is Some,
        0 < take <= (front(b.truth, bid)->0).1,
        start < t <= end,
    ensures
        ({
            let (px, avail) = front(b.truth, bid)->0;
            batch_sound(s, execution(b, bid, px, avail, take, t), m, start, end)
        }),
{
    let (px, avail) = front(b.truth, bid)->0;
    lemma_consumed(s, b, bid, take, m, start, end);
    let c = b.with(consumed(b.truth, bid, px, avail, take)).touch(bid, px);
    let e = execution(b, bid, px, avail, take, t);
    lemma_execution_shape(b, bid, px, avail, take, t);
    assert forall|i: int| 0 <= i < e.trades.len() implies start < (#[trigger] e.trades[i]).trade_ts_ms
        <= end by {
        if i < b.trades.len() {
            assert(e.trades[i] == b.trades[i]);
        }
    }
}

/// What an execution does to the sides, and the time of its trade.
proof fn lemma_execution_shape(b: BatchRun, bid: bool, px: i64, avail: i64, take: i64, t: u64)
    ensures
        ({
            let c = b.with(consumed(b.truth, bid, px, avail, take)).touch(bid, px);
            let e = execution(b, bid, px, avail, take, t);
            &&& e.truth.bids == c.truth.bids
            &&& e.truth.asks == c.truth.asks
            &&& e.truth.bid_reserve == c.truth.bid_reserve
            &&& e.truth.ask_reserve == c.truth.ask_reserve
            &&& e.bids == c.bids
            &&& e.asks == c.asks
            &&& e.trades.len() == b.trades.len() + 1
            &&& e.trades.last().trade_ts_ms == t
            &&& forall|i: int| 0 <= i < b.trades.len() ==> #[trigger] e.trades[i] == b.trades[i]
        }),
{
    reveal(execution);
}

/// Touching a price again changes nothing.
proof fn lemma_touch_twice(touched: Seq<(i64, bool)>, px: i64)
    requires
        sorted(touched),
    ensures
        put(put(touched, px, true), px, true) == put(touched, px, true),
{
    lemma_put(touched, px, true);
    let t = put(touched, px, true);
    assert(find(t, px) == Some(true));
    assert(put(t, px, true) =~= t);
}

proof fn lemma_sweep(
    s: TruthState,
    b: BatchRun,
    bid: bool,
    rem: int,
    t: u64,
    m: int,
    start: u64,
    end: u64,
)
    requires
        batch_sound(s, b, m, start, end),
        start < t <= end,
        rem <= i64::MAX,
    ensures
        batch_sound(s, sweep(b, bid, rem, t), m, start, end),
    decreases rem,
{
    match front(b.truth, bid) {
        None => {},
        Some((px, avail)) => {
            if rem > 0 && avail > 0 {
                let take = if rem < avail {
                    rem
                } else {
                    avail as int
                };
                lemma_execution(s, b, bid, take as i64, t, m, start, end);
                lemma_sweep(
                    s,
                    execution(b, bid, px, avail, take as i64, t),
                    bid,
                    rem - take,
                    t,
                    m,
                    start,
                    end,
                );
            }
        },
    }
}

proof fn lemma_operation(s: TruthState, b: BatchRun, m: int, start: u64, end: u64)
    requires
        batch_sound(s, b, m, start, end),
        room(m),
        start < end,
    ensures
        batch_sound(s, operation(b, start, end), m + 80 * TICK, start, end),
{
    let (x1, side) = drawn(b.truth.rng, 2);
    let (x2, r) = drawn(x1, 100);
    let c = b.with(TruthState { rng: x2, ..b.truth });
    assert(batch_sound(s, c, m, start, end));
    if r < 55 {
        lemma_limit(s, c, side == 0, m, start, end);
    } else if r < 85 {
        lemma_cancel(s, c, side == 0, m, start, end);
        lemma_widen(s, cancel_next(c, side == 0), m, m + 80 * TICK, start, end);
    } else {
        reveal(market_next);
        let (y1, q) = qty_drawn(c.truth.rng);
        lemma_qty_positive(c.truth.rng);
        let units = (q as int / 3) / STEP as int;
        let rem = (if units < 1 {
            1
        } else {
            units
        }) * STEP;
        let (y2, at) = drawn(y1, (end - start) as u64);
        let t = clamp_u64(start + 1 + at) as u64;
        assert(at < end - start);
        let d = c.with(TruthState { rng: y2, ..c.truth });
        assert(batch_sound(s, d, m, start, end));
        lemma_sweep(s, d, side == 0, rem, t, m, start, end);
        lemma_widen(s, market_next(c, side == 0, start, end), m, m + 80 * TICK, start, end);
    }
}

proof fn lemma_operations(s: TruthState, b: BatchRun, n: nat, m: int, start: u64, end: u64)
    requires
        batch_sound(s, b, m, start, end),
        room(m),
        room(m + n * (80 * TICK)),
        start < end,
    ensures
        batch_sound(s, operations(b, n, start, end), m + n * (80 * TICK), start, end),
    decreases n,
{
    if n > 0 {
        let k = (n - 1) as nat;
        assert(n * (80 * TICK) == k * (80 * TICK) + 80 * TICK) by (nonlinear_arith)
            requires
                n == k + 1,
        ;
        lemma_operations(s, b, k, m, start, end);
        lemma_operation(
            s,
            operations(b, k, start, end),
            m + k * (80 * TICK),
            start,
            end,
        );
    }
}

/// Each side has a level left, or the price at which an empty side starts again does
/// not cross the other.
pub open spec fn replenishable(s: TruthState) -> bool {
    &&& s.bids.len() > 0 || fits_side(s, true, beyond(s.bids, true))
    &&& s.asks.len() > 0 || fits_side(s, false, beyond(s.asks, false))
}

proof fn lemma_extended(s: TruthState, b: BatchRun, bid: bool, k: nat, m: int, start: u64, end: u64)
    requires
        batch_sound(s, b, m, start, end),
        b.truth.side(bid).len() > 0 || fits_side(b.truth, bid, beyond(b.truth.side(bid), bid)),
        room(m),
        room(m + k * TICK),
    ensures
        batch_sound(s, extended(b, bid, k), m + k * TICK, start, end),
        k > 0 || b.truth.side(bid).len() > 0 ==> extended(b, bid, k).truth.side(bid).len() > 0,
        extended(b, bid, k).truth.side(!bid) == b.truth.side(!bid),
        bid && (forall|p: i64| #[trigger] holds(b.truth.bids, p) ==> p < RESTART + TICK) ==> (
        forall|p: i64| #[trigger]
            holds(extended(b, bid, k).truth.bids, p) ==> p < RESTART + TICK),
    decreases k,
{
    if k > 0 {
        let j = (k - 1) as nat;
        assert(k * TICK == j * TICK + TICK) by (nonlinear_arith)
            requires
                k == j + 1,
        ;
        assert(0 <= j * TICK) by (nonlinear_arith);
        lemma_extended(s, b, bid, j, m, start, end);
        let p = extended(b, bid, j);
        let book = p.truth.side(bid);
        let px = beyond(book, bid);
        let n = m + k * TICK;
        lemma_widen(s, p, m + j * TICK, n, start, end);
        if book.len() > 0 {
            lemma_ends(book);
        }
        assert(-n <= px <= n);
        assert(fits_side(p.truth, bid, px));
        lemma_set(s, p, bid, px, far_qty(px), n, start, end);
        lemma_put_side(book, px, far_qty(px), n);
    }
}

/// The operations of a step, before the sides are brought back to their depth.
pub open spec fn step_operations(s: TruthState, start: u64, end: u64) -> BatchRun {
    let (x1, n) = drawn(s.rng, 30);
    let b = BatchRun {
        truth: TruthState { rng: x1, ..s },
        bids: Seq::empty(),
        asks: Seq::empty(),
        trades: Seq::empty(),
    };
    operations(b, (5 + n) as nat, start, end)
}

proof fn lemma_step(s: TruthState, start: u64, end: u64, m: int)
    requires
        market_sound(s, m),
        room(m),
        room(m + 4_000 * TICK),
        start < end,
        replenishable(step_operations(s, start, end).truth),
    ensures
        batch_sound(s, step_batch(s, start, end), m + 4_000 * TICK, start, end),
        step_batch(s, start, end).truth.bids.len() > 0,
        step_batch(s, start, end).truth.asks.len() > 0,
{
    reveal(step_batch);
    let (x1, n) = drawn(s.rng, 30);
    assert(n < 30);
    let b = BatchRun {
        truth: TruthState { rng: x1, ..s },
        bids: Seq::empty(),
        asks: Seq::empty(),
        trades: Seq::empty(),
    };
    assert(batch_sound(s, b, m, start, end));
    let ops = (5 + n) as nat;
    let m1 = m + ops * (80 * TICK);
    assert(ops * (80 * TICK) <= 34 * (80 * TICK)) by (nonlinear_arith)
        requires
            ops <= 34,
    ;
    assert(ops * (80 * TICK) >= 0) by (nonlinear_arith);
    lemma_operations(s, b, ops, m, start, end);
    let c = operations(b, ops, start, end);
    let k1 = lacking(c.truth.bids);
    assert(0 <= k1 * TICK <= 300 * TICK) by (nonlinear_arith)
        requires
            k1 <= 300,
    ;
    lemma_extended(s, c, true, k1, m1, start, end);
    let d = extended(c, true, k1);
    let k2 = lacking(d.truth.asks);
    assert(0 <= k2 * TICK <= 300 * TICK) by (nonlinear_arith)
        requires
            k2 <= 300,
    ;
    lemma_extended(s, d, false, k2, m1 + k1 * TICK, start, end);
    lemma_widen(
        s,
        step_batch(s, start, end),
        m1 + k1 * TICK + k2 * TICK,
        m + 4_000 * TICK,
        start,
        end,
    );
}

/// The truth is never crossed: a batch that starts from a sound market, and whose
/// operations leave sides that can be replenished, ends in a sound one, with a level on
/// each side, every bid under every ask and every quantity positive. Its prices move
/// four thousand ticks at most. (A market order may take all of a side; it then starts
/// again at a price that is always the same, and that the other side may have passed.)
pub proof fn law_truth_never_crossed(s: TruthState, end_ms: u64, m: int)
    requires
        market_sound(s, m),
        room(m),
        room(m + 4_000 * TICK),
        s.last_end_ms < u64::MAX,
        replenishable(step_operations(s, s.last_end_ms, step_end(s, end_ms)).truth),
    ensures
        market_sound(step_next(s, end_ms).truth, m + 4_000 * TICK),
        step_next(s, end_ms).truth.bids.len() > 0,
        step_next(s, end_ms).truth.asks.len() > 0,
        step_next(s, end_ms).truth.best_bid() < step_next(s, end_ms).truth.best_ask(),
{
    lemma_step(s, s.last_end_ms, step_end(s, end_ms), m);
    let t = step_next(s, end_ms).truth;
    lemma_ends(t.bids);
    lemma_ends(t.asks);
}

/// The diff tells the whole change: each of its levels carries what the side holds after
/// the batch (zero where the level is gone), and the prices that it does not name hold
/// what they held before.
pub proof fn law_diff_tells_the_change(s: TruthState, end_ms: u64, m: int, px: i64)
    requires
        market_sound(s, m),
        room(m),
        room(m + 4_000 * TICK),
        s.last_end_ms < u64::MAX,
        replenishable(step_operations(s, s.last_end_ms, step_end(s, end_ms)).truth),
    ensures
        ({
            let n = step_next(s, end_ms);
            &&& forall|i: int|
                0 <= i < n.diff.bids.len() ==> (#[trigger] n.diff.bids[i]).qty.0 == stored(
                    n.truth.bids,
                    n.diff.bids[i].px.0,
                )
            &&& forall|i: int|
                0 <= i < n.diff.asks.len() ==> (#[trigger] n.diff.asks[i]).qty.0 == stored(
                    n.truth.asks,
                    n.diff.asks[i].px.0,
                )
            &&& (forall|i: int|
                0 <= i < n.diff.bids.len() ==> (#[trigger] n.diff.bids[i]).px.0 != px) ==> stored(
                n.truth.bids,
                px,
            ) == stored(s.bids, px)
            &&& (forall|i: int|
                0 <= i < n.diff.asks.len() ==> (#[trigger] n.diff.asks[i]).px.0 != px) ==> stored(
                n.truth.asks,
                px,
            ) == stored(s.asks, px)
        }),
{
    let end = step_end(s, end_ms);
    lemma_step(s, s.last_end_ms, end, m);
    let b = step_batch(s, s.last_end_ms, end);
    let n = step_next(s, end_ms);
    let x = find(b.truth.bids, px);
    let y = find(b.truth.asks, px);
    if holds(b.bids, px) {
        let i = rank(b.bids, px) as int;
        assert(n.diff.bids[i].px.0 == px);
    }
    if holds(b.asks, px) {
        let i = rank(b.asks, px) as int;
        assert(n.diff.asks[i].px.0 == px);
    }
}

/// Every trade of a batch happens within it: after the end of the batch before, and not
/// after its own.
pub proof fn law_trades_within_the_batch(s: TruthState, end_ms: u64, m: int, i: int)
    requires
        market_sound(s, m),
        room(m),
        room(m + 4_000 * TICK),
        s.last_end_ms < u64::MAX,
        replenishable(step_operations(s, s.last_end_ms, step_end(s, end_ms)).truth),
        0 <= i < step_next(s, end_ms).trades.len(),
    ensures
        s.last_end_ms < step_next(s, end_ms).trades[i].trade_ts_ms <= step_end(s, end_ms),
        step_next(s, end_ms).truth.last_end_ms == step_end(s, end_ms),
{
    lemma_step(s, s.last_end_ms, step_end(s, end_ms), m);
}

/// The ids follow the rules of the venue: contiguous on spot, and with the id of the
/// message before on perpetuals.
pub proof fn law_ids_follow_the_venue(s: TruthState, end_ms: u64)
    requires
        s.last_id + 10 <= u64::MAX,
    ensures
        ({
            let n = step_next(s, end_ms);
            &&& n.truth.last_id == n.diff.last_id
            &&& s.last_id < n.diff.first_id <= n.diff.last_id <= s.last_id + 10
            &&& s.kind == MarketKind::Spot ==> n.diff.first_id == s.last_id + 1
                && n.diff.prev_last_id is None
            &&& s.kind == MarketKind::Perp ==> n.diff.prev_last_id == Some(s.last_id)
        }),
{
    let b = step_batch(s, s.last_end_ms, step_end(s, end_ms));
    let (x1, jump) = drawn(b.truth.rng, 5);
    assert(jump < 5);
    let (x2, more) = drawn(x1, 4);
    let (x3, more2) = drawn(b.truth.rng, 4);
    assert(more < 4 && more2 < 4);
}

/// A new market is sound.
pub proof fn law_new_market_sound(kind: MarketKind, seed: u64, start_ms: u64)
    ensures
        market_sound(truth_start(kind, seed, start_ms), 100_000_000_000),
{
    lemma_seeded(kind, seed, start_ms, 400);
}

/// The market after steps that end at `ends`.
pub open spec fn truth_run(s: TruthState, ends: Seq<u64>) -> TruthState
    decreases ends.len(),
{
    if ends.len() == 0 {
        s
    } else {
        step_next(truth_run(s, ends.drop_last()), ends.last()).truth
    }
}

/// The operations of every step leave sides that can be replenished, and the clock does
/// not run out.
pub open spec fn replenishable_run(s: TruthState, ends: Seq<u64>) -> bool
    decreases ends.len(),
{
    ends.len() == 0 || {
        let t = truth_run(s, ends.drop_last());
        &&& replenishable_run(s, ends.drop_last())
        &&& t.last_end_ms < u64::MAX
        &&& replenishable(step_operations(t, t.last_end_ms, step_end(t, ends.last())).truth)
    }
}

/// A market that runs from the start, for as many steps as the prices have room for: it
/// is never crossed and never without a level on a side; the ids of its diffs chain as
/// those of the venue do; its trades happen within their batch; and its diffs turn each
/// book into the next.
pub proof fn law_market_run(kind: MarketKind, seed: u64, start_ms: u64, ends: Seq<u64>)
    requires
        ends.len() <= 800_000_000,
        replenishable_run(truth_start(kind, seed, start_ms), ends),
    ensures
        ({
            let t = truth_run(truth_start(kind, seed, start_ms), ends);
            &&& market_sound(t, 100_000_000_000 + ends.len() * (4_000 * TICK))
            &&& t.bids.len() > 0
            &&& t.asks.len() > 0
            &&& t.best_bid() < t.best_ask()
            &&& t.kind == kind
            &&& t.last_id <= 1_000_000 + 10 * ends.len()
        }),
        ends.len() > 0 ==> ({
            let s = truth_run(truth_start(kind, seed, start_ms), ends.drop_last());
            let n = step_next(s, ends.last());
            &&& n.truth == truth_run(truth_start(kind, seed, start_ms), ends)
            &&& n.truth.last_id == n.diff.last_id
            &&& s.last_id < n.diff.first_id <= n.diff.last_id
            &&& kind == MarketKind::Spot ==> n.diff.first_id == s.last_id + 1
                && n.diff.prev_last_id is None
            &&& kind == MarketKind::Perp ==> n.diff.prev_last_id == Some(s.last_id)
            &&& forall|i: int|
                0 <= i < n.trades.len() ==> s.last_end_ms < (#[trigger] n.trades[i]).trade_ts_ms
                    <= step_end(s, ends.last())
            &&& forall|px: i64| #[trigger]
                turned(n.diff.bids, s.bids, n.truth.bids, px)
            &&& forall|px: i64| #[trigger]
                turned(n.diff.asks, s.asks, n.truth.asks, px)
        }),
    decreases ends.len(),
{
    let s0 = truth_start(kind, seed, start_ms);
    if ends.len() == 0 {
        law_new_market_sound(kind, seed, start_ms);
        lemma_seeded(kind, seed, start_ms, 400);
        assert(s0.bids.len() > 0 && s0.asks.len() > 0 && s0.kind == kind && s0.last_id
            == 1_000_000);
        lemma_ends(s0.bids);
        lemma_ends(s0.asks);
    } else {
        let before = ends.drop_last();
        law_market_run(kind, seed, start_ms, before);
        let s = truth_run(s0, before);
        let n = step_next(s, ends.last());
        let m = 100_000_000_000 + before.len() * (4_000 * TICK);
        assert(ends.len() * (4_000 * TICK) == before.len() * (4_000 * TICK) + 4_000 * TICK)
            by (nonlinear_arith)
            requires
                ends.len() == before.len() + 1,
        ;
        assert(0 <= before.len() * (4_000 * TICK) <= 800_000_000 * (4_000 * TICK))
            by (nonlinear_arith)
            requires
                before.len() <= 800_000_000,
        ;
        law_truth_never_crossed(s, ends.last(), m);
        law_ids_follow_the_venue(s, ends.last());
        assert forall|i: int| 0 <= i < n.trades.len() implies s.last_end_ms < (
        #[trigger] n.trades[i]).trade_ts_ms <= step_end(s, ends.last()) by {
            law_trades_within_the_batch(s, ends.last(), m, i);
        }
        assert forall|px: i64| #[trigger] turned(n.diff.bids, s.bids, n.truth.bids, px) by {
            law_diff_tells_the_change(s, ends.last(), m, px);
        }
        assert forall|px: i64| #[trigger] turned(n.diff.asks, s.asks, n.truth.asks, px) by {
            law_diff_tells_the_change(s, ends.last(), m, px);
        }
        lemma_kind_kept(s, ends.last());
    }
}

proof fn lemma_sweep_kind(b: BatchRun, bid: bool, rem: int, t: u64)
    ensures
        sweep(b, bid, rem, t).truth.kind == b.truth.kind,
    decreases rem,
{
    reveal(execution);
    match front(b.truth, bid) {
        None => {},
        Some((px, avail)) => {
            if rem > 0 && avail > 0 {
                let take = if rem < avail {
                    rem
                } else {
                    avail as int
                };
                lemma_sweep_kind(
                    execution(b, bid, px, avail, take as i64, t),
                    bid,
                    rem - take,
                    t,
                );
            }
        },
    }
}

proof fn lemma_operations_kind(b: BatchRun, n: nat, start: u64, end: u64)
    ensures
        operations(b, n, start, end).truth.kind == b.truth.kind,
    decreases n,
{
    if n > 0 {
        let c = operations(b, (n - 1) as nat, start, end);
        lemma_operations_kind(b, (n - 1) as nat, start, end);
        reveal(limit_next);
        reveal(cancel_next);
        reveal(market_next);
        assert forall|d: BatchRun, bid: bool, rem: int, t: u64|
            (#[trigger] sweep(d, bid, rem, t)).truth.kind == d.truth.kind by {
            lemma_sweep_kind(d, bid, rem, t);
        }
    }
}

proof fn lemma_extended_kind(b: BatchRun, bid: bool, k: nat)
    ensures
        extended(b, bid, k).truth.kind == b.truth.kind,
    decreases k,
{
    if k > 0 {
        lemma_extended_kind(b, bid, (k - 1) as nat);
    }
}

/// A step keeps the kind of market.
proof fn lemma_kind_kept(s: TruthState, end_ms: u64)
    ensures
        step_next(s, end_ms).truth.kind == s.kind,
{
    reveal(step_batch);
    let start = s.last_end_ms;
    let end = step_end(s, end_ms);
    let c = step_operations(s, start, end);
    let (x1, n) = drawn(s.rng, 30);
    let b = BatchRun {
        truth: TruthState { rng: x1, ..s },
        bids: Seq::empty(),
        asks: Seq::empty(),
        trades: Seq::empty(),
    };
    lemma_operations_kind(b, (5 + n) as nat, start, end);
    lemma_extended_kind(c, true, lacking(c.truth.bids));
    let d = extended(c, true, lacking(c.truth.bids));
    lemma_extended_kind(d, false, lacking(d.truth.asks));
}

/// What a side holds at a price after a diff: what the diff says of it or, where it says
/// nothing, what it held.
pub open spec fn turned(
    levels: Seq<Level>,
    before: Seq<(i64, i64)>,
    after: Seq<(i64, i64)>,
    px: i64,
) -> bool {
    &&& forall|i: int|
        0 <= i < levels.len() && (#[trigger] levels[i]).px.0 == px ==> levels[i].qty.0 == stored(
            after,
            px,
        )
    &&& (forall|i: int| 0 <= i < levels.len() ==> (#[trigger] levels[i]).px.0 != px) ==> stored(
        after,
        px,
    ) == stored(before, px)
}

proof fn lemma_seeded(kind: MarketKind, seed: u64, start_ms: u64, k: nat)
    requires
        k <= 400,
    ensures
        market_sound(seeded(kind, seed, start_ms, k), 100_000_000_000),
        k > 0 ==> seeded(kind, seed, start_ms, k).bids.len() > 0,
        k > 0 ==> seeded(kind, seed, start_ms, k).asks.len() > 0,
        seeded(kind, seed, start_ms, k).kind == kind,
        seeded(kind, seed, start_ms, k).last_id == 1_000_000,
        forall|p: i64|
            #[trigger] holds(seeded(kind, seed, start_ms, k).bids, p) ==> p < 15_000_000_000,
        forall|p: i64|
            #[trigger] holds(seeded(kind, seed, start_ms, k).asks, p) ==> p > 15_000_000_000,
    decreases k,
{
    if k > 0 {
        let j = (k - 1) as nat;
        lemma_seeded(kind, seed, start_ms, j);
        let s = seeded(kind, seed, start_ms, j);
        let (x1, q1) = qty_drawn(s.rng);
        let (x2, q2) = qty_drawn(x1);
        lemma_qty_positive(s.rng);
        lemma_qty_positive(x1);
        let b = (15_000_000_000 - k * TICK) as i64;
        let a = (15_000_000_000 + k * TICK) as i64;
        assert(TICK <= k * TICK <= 400 * TICK) by (nonlinear_arith)
            requires
                1 <= k <= 400,
        ;
        lemma_put_side(s.bids, b, q1, 100_000_000_000);
        lemma_put_side(s.asks, a, q2, 100_000_000_000);
    }
}

} // verus!

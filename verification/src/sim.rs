//! Synthetic exchange with a known truth, and chaos on its lines.
//!
//! It generates a market with the sequence rules of a venue (spot: contiguous ids;
//! perpetuals: ids with jumps and the id of the message before), batches of limit
//! orders, cancellations and market orders that sweep levels, icebergs that reload, and
//! hidden retail executions on perpetuals. Everything is a function of the seed and of
//! the instants given.

use crate::event::{AggTrade, Aggressor, DepthDiff, DepthSnapshot, DiffView, Level, RxStamp, SnapView};
use crate::fixed::{Px, Qty};
use crate::instrument::MarketKind;
use crate::num::{add_i64, add_u64, clamp_i64, clamp_u64, sub_i64};
use crate::ordmap::{del, find, put, SortedMap};
use vstd::prelude::*;

verus! {

/// Price tick: 0.01.
pub const TICK: i64 = 1_000_000;

/// Quantity step: 0.001.
pub const STEP: i64 = 100_000;

/// Levels that the check against the truth compares.
pub const TOP_CHECK: usize = 10;

/// Tops that the truth remembers.
pub const HISTORY: usize = 4_000;

/// The state of the generator after a draw (xorshift64*).
pub open spec fn rng_state(x: u64) -> u64 {
    let a = x ^ (x >> 12u64);
    let b = a ^ (a << 25u64);
    b ^ (b >> 27u64)
}

/// What a draw gives, with the state after it.
pub open spec fn rng_value(x: u64) -> u64 {
    ((x * 0x2545_f491_4f6c_dd1d) % 0x1_0000_0000_0000_0000) as u64
}

/// A draw under `n` (0 where `n` is 0), with the state after it.
pub open spec fn drawn(x: u64, n: u64) -> (u64, u64) {
    let y = rng_state(x);
    (
        y,
        (rng_value(y) % (if n < 1 {
            1
        } else {
            n
        })) as u64,
    )
}

/// Whether an event of the given chance happens: `Some(t)` stands for the probability
/// `t / 2^53`; without it nothing is drawn.
pub open spec fn chanced(x: u64, t: Option<u64>) -> (u64, bool) {
    match t {
        None => (x, false),
        Some(t) => {
            let y = rng_state(x);
            (y, rng_value(y) / 2048 <= t)
        },
    }
}

/// Deterministic generator (xorshift64*).
pub struct Rng(pub u64);

impl Rng {
    /// The next value.
    pub fn next(&mut self) -> (r: u64)
        ensures
            final(self).0 == rng_state(old(self).0),
            r == rng_value(final(self).0),
    {
        let mut x: u64 = self.0;
        x = x ^ (x >> 12u64);
        x = x ^ (x << 25u64);
        x = x ^ (x >> 27u64);
        self.0 = x;
        x.wrapping_mul(0x2545_f491_4f6c_dd1d)
    }

    /// A value under `n`.
    pub fn below(&mut self, n: u64) -> (r: u64)
        ensures
            (final(self).0, r) == drawn(old(self).0, n),
            n > 0 ==> r < n,
            n == 0 ==> r == 0,
    {
        let v = self.next();
        v % (if n < 1 {
            1
        } else {
            n
        })
    }

    /// Whether an event of the given chance happens.
    pub fn chance(&mut self, t: Option<u64>) -> (r: bool)
        ensures
            (final(self).0, r) == chanced(old(self).0, t),
    {
        match t {
            None => false,
            Some(t) => self.next() / 2048 <= t,
        }
    }
}

/// A quantity: mostly small, with a long tail.
pub open spec fn qty_drawn(x: u64) -> (u64, i64) {
    let (x1, r) = drawn(x, 1000);
    if r < 700 {
        let (x2, u) = drawn(x1, 2_000);
        (x2, ((1 + u) * STEP) as i64)
    } else if r < 970 {
        let (x2, u) = drawn(x1, 20_000);
        (x2, ((2_000 + u) * STEP) as i64)
    } else {
        let (x2, u) = drawn(x1, 200_000);
        (x2, ((20_000 + u) * STEP) as i64)
    }
}

/// Draws a quantity.
pub fn draw_qty(rng: &mut Rng) -> (r: i64)
    ensures
        (final(rng).0, r) == qty_drawn(old(rng).0),
        STEP <= r <= 220_000 * STEP,
{
    let r = rng.below(1000);
    let units: u64 = if r < 700 {
        1 + rng.below(2_000)
    } else if r < 970 {
        2_000 + rng.below(20_000)
    } else {
        20_000 + rng.below(200_000)
    };
    units as i64 * STEP
}

/// The best levels of both sides, best first.
#[verifier::ext_equal]
pub struct TopView {
    /// Bids from the highest down.
    pub bids: Seq<(Px, Qty)>,
    /// Asks from the lowest up.
    pub asks: Seq<(Px, Qty)>,
}

/// The best levels of both sides, best first.
pub struct Top {
    /// Bids from the highest down.
    pub bids: Vec<(Px, Qty)>,
    /// Asks from the lowest up.
    pub asks: Vec<(Px, Qty)>,
}

impl View for Top {
    type V = TopView;

    open spec fn view(&self) -> TopView {
        TopView { bids: self.bids@, asks: self.asks@ }
    }
}

/// What the truth holds.
#[verifier::ext_equal]
pub struct TruthState {
    /// Kind of market.
    pub kind: MarketKind,
    /// Bids by price.
    pub bids: Seq<(i64, i64)>,
    /// Asks by price.
    pub asks: Seq<(i64, i64)>,
    /// Hidden reserve behind bids, by price.
    pub bid_reserve: Seq<(i64, i64)>,
    /// Hidden reserve behind asks, by price.
    pub ask_reserve: Seq<(i64, i64)>,
    /// Last update id.
    pub last_id: u64,
    /// End of the last batch, ms.
    pub last_end_ms: u64,
    /// Last trade id.
    pub agg_id: u64,
    /// State of the generator.
    pub rng: u64,
    /// The tops of the last batches, by update id.
    pub history: Seq<(u64, TopView)>,
}

impl TruthState {
    /// The levels of a side.
    pub open spec fn side(self, bid: bool) -> Seq<(i64, i64)> {
        if bid {
            self.bids
        } else {
            self.asks
        }
    }

    /// The reserve of a side.
    pub open spec fn reserve(self, bid: bool) -> Seq<(i64, i64)> {
        if bid {
            self.bid_reserve
        } else {
            self.ask_reserve
        }
    }

    /// The state with other levels on a side.
    pub open spec fn with_side(self, bid: bool, v: Seq<(i64, i64)>) -> TruthState {
        if bid {
            TruthState { bids: v, ..self }
        } else {
            TruthState { asks: v, ..self }
        }
    }

    /// The state with another reserve on a side.
    pub open spec fn with_reserve(self, bid: bool, v: Seq<(i64, i64)>) -> TruthState {
        if bid {
            TruthState { bid_reserve: v, ..self }
        } else {
            TruthState { ask_reserve: v, ..self }
        }
    }

    /// The best bid, or a default where there is none.
    pub open spec fn best_bid(self) -> i64 {
        if self.bids.len() > 0 {
            self.bids.last().0
        } else {
            14_900_000_000
        }
    }

    /// The best ask, or a default where there is none.
    pub open spec fn best_ask(self) -> i64 {
        if self.asks.len() > 0 {
            self.asks[0].0
        } else {
            15_100_000_000
        }
    }

    /// The best levels.
    pub open spec fn top(self) -> TopView {
        let nb = if self.bids.len() < TOP_CHECK {
            self.bids.len()
        } else {
            TOP_CHECK as nat
        };
        let na = if self.asks.len() < TOP_CHECK {
            self.asks.len()
        } else {
            TOP_CHECK as nat
        };
        TopView {
            bids: Seq::new(
                nb,
                |i: int|
                    (
                        Px(self.bids[self.bids.len() - 1 - i].0),
                        Qty(self.bids[self.bids.len() - 1 - i].1),
                    ),
            ),
            asks: Seq::new(na, |i: int| (Px(self.asks[i].0), Qty(self.asks[i].1))),
        }
    }
}

/// A batch in course: the truth, the prices touched on each side, and the trades.
#[verifier::ext_equal]
pub struct BatchRun {
    /// The truth.
    pub truth: TruthState,
    /// Touched bids.
    pub bids: Seq<(i64, bool)>,
    /// Touched asks.
    pub asks: Seq<(i64, bool)>,
    /// The trades so far.
    pub trades: Seq<AggTrade>,
}

impl BatchRun {
    /// The touched prices of a side.
    pub open spec fn touched(self, bid: bool) -> Seq<(i64, bool)> {
        if bid {
            self.bids
        } else {
            self.asks
        }
    }

    /// The batch with one more touched price.
    pub open spec fn touch(self, bid: bool, px: i64) -> BatchRun {
        if bid {
            BatchRun { bids: put(self.bids, px, true), ..self }
        } else {
            BatchRun { asks: put(self.asks, px, true), ..self }
        }
    }

    /// The batch with another truth.
    pub open spec fn with(self, truth: TruthState) -> BatchRun {
        BatchRun { truth, ..self }
    }
}

/// A stored quantity, or zero.
pub open spec fn stored(s: Seq<(i64, i64)>, px: i64) -> i64 {
    match find(s, px) {
        Some(q) => q,
        None => 0,
    }
}

/// A limit order on a side: inside a wide spread or at some distance from the best.
#[verifier::opaque]
pub open spec fn limit_next(b: BatchRun, bid: bool) -> BatchRun {
    let s = b.truth;
    let bb = s.best_bid();
    let ba = s.best_ask();
    let (x1, near) = drawn(s.rng, 100);
    let (x2, dist) = if near < 70 {
        drawn(x1, 6)
    } else {
        drawn(x1, 80)
    };
    let wide = clamp_i64(ba - bb) > TICK;
    let (x3, quote) = if wide {
        drawn(x2, 100)
    } else {
        (x2, 100u64)
    };
    let away = if bid {
        clamp_i64(bb - dist * TICK)
    } else {
        clamp_i64(ba + dist * TICK)
    };
    let edge = if bid {
        clamp_i64(ba - TICK)
    } else {
        clamp_i64(bb + TICK)
    };
    let px = (if wide && quote < 60 {
        if bid {
            clamp_i64(bb + TICK)
        } else {
            clamp_i64(ba - TICK)
        }
    } else if bid {
        if away < edge {
            away
        } else {
            edge
        }
    } else if away > edge {
        away
    } else {
        edge
    }) as i64;
    let (x4, q) = qty_drawn(x3);
    let level = clamp_i64(stored(s.side(bid), px) + q) as i64;
    let (x5, ice) = drawn(x4, 100);
    let t = s.with_side(bid, put(s.side(bid), px, level));
    let u = if ice < 3 {
        let (x6, r) = qty_drawn(x5);
        let hidden = clamp_i64(stored(s.reserve(bid), px) + r * 5) as i64;
        TruthState { rng: x6, ..t.with_reserve(bid, put(s.reserve(bid), px, hidden)) }
    } else {
        TruthState { rng: x5, ..t }
    };
    b.with(u).touch(bid, px)
}

/// The share of a quantity that a partial cancellation takes, in hundredths, in steps.
pub open spec fn part(cur: i64, share: u64) -> int {
    if cur < 0 {
        cur as int
    } else {
        ((cur as int / STEP as int) * (1 + share) / 100) * STEP
    }
}

/// A cancellation on a side: all or part of one of its thirty best levels.
#[verifier::opaque]
pub open spec fn cancel_next(b: BatchRun, bid: bool) -> BatchRun {
    let s = b.truth;
    let book = s.side(bid);
    if book.len() == 0 {
        b
    } else {
        let depth = if book.len() < 30 {
            book.len() as u64
        } else {
            30u64
        };
        let (x1, idx) = drawn(s.rng, depth);
        let at = if bid {
            book.len() - 1 - idx
        } else {
            idx as int
        };
        let (px, cur) = book[at];
        let (x2, all) = drawn(x1, 100);
        let (x3, cut) = if all < 25 {
            (x2, cur as int)
        } else {
            let (x, share) = drawn(x2, 90);
            (x, part(cur, share))
        };
        let left = cur - cut;
        let t = TruthState { rng: x3, ..s };
        let u = if left <= 0 {
            t.with_side(bid, del(book, px)).with_reserve(bid, del(s.reserve(bid), px))
        } else {
            t.with_side(bid, put(book, px, left as i64))
        };
        b.with(u).touch(bid, px)
    }
}

/// The level of a side that a market order meets next: its price and quantity.
pub open spec fn front(s: TruthState, bid: bool) -> Option<(i64, i64)> {
    let book = s.side(bid);
    if book.len() == 0 {
        None
    } else if bid {
        Some(book.last())
    } else {
        Some(book[0])
    }
}

/// The truth after `take` of the level in front was executed; a level that runs out is
/// reloaded from its reserve.
pub open spec fn consumed(s: TruthState, bid: bool, px: i64, avail: i64, take: i64) -> TruthState {
    let book = s.side(bid);
    let left = avail - take;
    if left == 0 {
        match find(s.reserve(bid), px) {
            None => s.with_side(bid, del(book, px)),
            Some(res) => {
                let refill = if res < 20_000 * STEP {
                    res
                } else {
                    (20_000 * STEP) as i64
                };
                let r = del(s.reserve(bid), px);
                let t = s.with_side(bid, put(del(book, px), px, refill));
                if res > refill {
                    t.with_reserve(bid, put(r, px, (res - refill) as i64))
                } else {
                    t.with_reserve(bid, r)
                }
            },
        }
    } else {
        s.with_side(bid, put(book, px, left as i64))
    }
}

/// One execution of a market order against the level in front.
#[verifier::opaque]
pub open spec fn execution(b: BatchRun, bid: bool, px: i64, avail: i64, take: i64, t: u64) -> BatchRun {
    let s = b.truth;
    let u = consumed(s, bid, px, avail, take);
    let perp = s.kind == MarketKind::Perp;
    let (x1, hidden) = if perp {
        drawn(s.rng, 100)
    } else {
        (s.rng, 100u64)
    };
    let (x2, rpi) = if perp && hidden < 5 {
        let (x, units) = drawn(x1, 200);
        (x, ((1 + units) * STEP) as i64)
    } else {
        (x1, 0i64)
    };
    let agg_id = clamp_u64(s.agg_id + 1) as u64;
    let tid = clamp_u64(agg_id * 10) as u64;
    let (x3, more) = drawn(x2, 4);
    let (x4, late) = drawn(x3, 3);
    let trade = AggTrade {
        agg_id,
        first_trade_id: tid,
        last_trade_id: clamp_u64(tid + more) as u64,
        px: Px(px),
        qty: Qty(clamp_i64(take + rpi) as i64),
        qty_normal: if perp {
            Some(Qty(take))
        } else {
            None
        },
        aggressor: if bid {
            Aggressor::Sell
        } else {
            Aggressor::Buy
        },
        trade_ts_ms: t,
        exch_ts_ms: clamp_u64(t + late) as u64,
        rx: RxStamp { line: 0, wall_ns: 0, mono_ns: 0 },
    };
    BatchRun {
        truth: TruthState { rng: x4, agg_id, ..u },
        trades: b.trades.push(trade),
        ..b.touch(bid, px)
    }
}

/// A market order of `rem` that sweeps a side at instant `t`.
pub open spec fn sweep(b: BatchRun, bid: bool, rem: int, t: u64) -> BatchRun
    decreases rem,
{
    match front(b.truth, bid) {
        None => b,
        Some((px, avail)) => if rem <= 0 || avail <= 0 {
            b
        } else {
            let take = if rem < avail {
                rem
            } else {
                avail as int
            };
            sweep(execution(b, bid, px, avail, take as i64, t), bid, rem - take, t)
        },
    }
}

/// A market order against a side, in the batch `(start, end]`.
#[verifier::opaque]
pub open spec fn market_next(b: BatchRun, bid: bool, start: u64, end: u64) -> BatchRun {
    let s = b.truth;
    let (x1, q) = qty_drawn(s.rng);
    let units = (q as int / 3) / STEP as int;
    let rem = (if units < 1 {
        1
    } else {
        units
    }) * STEP;
    let (x2, at) = drawn(x1, (end - start) as u64);
    let t = clamp_u64(start + 1 + at) as u64;
    sweep(b.with(TruthState { rng: x2, ..s }), bid, rem, t)
}

/// One operation of the batch `(start, end]`.
pub open spec fn operation(b: BatchRun, start: u64, end: u64) -> BatchRun {
    let (x1, side) = drawn(b.truth.rng, 2);
    let (x2, r) = drawn(x1, 100);
    let c = b.with(TruthState { rng: x2, ..b.truth });
    if r < 55 {
        limit_next(c, side == 0)
    } else if r < 85 {
        cancel_next(c, side == 0)
    } else {
        market_next(c, side == 0, start, end)
    }
}

/// `n` operations of the batch `(start, end]`.
pub open spec fn operations(b: BatchRun, n: nat, start: u64, end: u64) -> BatchRun
    decreases n,
{
    if n == 0 {
        b
    } else {
        operation(operations(b, (n - 1) as nat, start, end), start, end)
    }
}

/// The price one tick beyond the far end of a side.
pub open spec fn beyond(book: Seq<(i64, i64)>, bid: bool) -> i64 {
    if bid {
        clamp_i64(
            (if book.len() > 0 {
                book[0].0
            } else {
                15_000_000_000
            }) - TICK,
        ) as i64
    } else {
        clamp_i64(
            (if book.len() > 0 {
                book.last().0
            } else {
                15_000_000_000
            }) + TICK,
        ) as i64
    }
}

/// The quantity of a level added far away.
pub open spec fn far_qty(px: i64) -> i64 {
    let a = if px < 0 {
        -px
    } else {
        px as int
    };
    ((1 + (a / TICK as int * 7_919) % 20_000) * STEP) as i64
}

/// `k` levels added beyond the far end of a side.
pub open spec fn extended(b: BatchRun, bid: bool, k: nat) -> BatchRun
    decreases k,
{
    if k == 0 {
        b
    } else {
        let p = extended(b, bid, (k - 1) as nat);
        let book = p.truth.side(bid);
        let px = beyond(book, bid);
        p.with(p.truth.with_side(bid, put(book, px, far_qty(px)))).touch(bid, px)
    }
}

/// How many levels a side lacks to three hundred.
pub open spec fn lacking(book: Seq<(i64, i64)>) -> nat {
    if book.len() < 300 {
        (300 - book.len()) as nat
    } else {
        0
    }
}

/// Both sides brought to three hundred levels.
pub open spec fn replenished(b: BatchRun) -> BatchRun {
    let c = extended(b, true, lacking(b.truth.bids));
    extended(c, false, lacking(c.truth.asks))
}

/// The levels of a diff: the touched prices with their quantity after the batch.
pub open spec fn diff_levels(touched: Seq<(i64, bool)>, book: Seq<(i64, i64)>) -> Seq<Level> {
    Seq::new(
        touched.len(),
        |i: int| Level { px: Px(touched[i].0), qty: Qty(stored(book, touched[i].0)) },
    )
}

/// The last entries of a history.
pub open spec fn remembered(h: Seq<(u64, TopView)>) -> Seq<(u64, TopView)> {
    if h.len() > HISTORY {
        h.skip(h.len() - HISTORY)
    } else {
        h
    }
}

/// The batch of a step, before its ids.
#[verifier::opaque]
pub open spec fn step_batch(s: TruthState, start: u64, end: u64) -> BatchRun {
    let (x1, n) = drawn(s.rng, 30);
    let b = BatchRun {
        truth: TruthState { rng: x1, ..s },
        bids: Seq::empty(),
        asks: Seq::empty(),
        trades: Seq::empty(),
    };
    replenished(operations(b, (5 + n) as nat, start, end))
}

/// The end of a batch asked for at `end_ms`: after the one before.
pub open spec fn step_end(s: TruthState, end_ms: u64) -> u64 {
    if end_ms <= s.last_end_ms {
        clamp_u64(s.last_end_ms + 1) as u64
    } else {
        end_ms
    }
}

/// What a step gives: the truth after it, the diff and the trades.
#[verifier::ext_equal]
pub struct Stepped {
    /// The truth after the step.
    pub truth: TruthState,
    /// The diff.
    pub diff: DiffView,
    /// The trades.
    pub trades: Seq<AggTrade>,
}

/// One batch: what it gives.
pub open spec fn step_next(s: TruthState, end_ms: u64) -> Stepped {
    let start = s.last_end_ms;
    let end = step_end(s, end_ms);
    let b = step_batch(s, start, end);
    let t = b.truth;
    let perp = s.kind == MarketKind::Perp;
    let (x1, jump) = if perp {
        drawn(t.rng, 5)
    } else {
        (t.rng, 0u64)
    };
    let first = clamp_u64(s.last_id + 1 + jump) as u64;
    let (x2, more) = drawn(x1, 4);
    let last = clamp_u64(first + more) as u64;
    let u = TruthState { rng: x2, last_id: last, last_end_ms: end, ..t };
    Stepped {
        truth: TruthState { history: remembered(t.history.push((last, u.top()))), ..u },
        diff: DiffView {
            first_id: first,
            last_id: last,
            prev_last_id: if perp {
                Some(s.last_id)
            } else {
                None
            },
            exch_ts_ms: if perp {
                clamp_u64(end + 1) as u64
            } else {
                end
            },
            match_ts_ms: if perp {
                Some(end)
            } else {
                None
            },
            bids: diff_levels(b.bids, t.bids),
            asks: diff_levels(b.asks, t.asks),
            rx: RxStamp { line: 0, wall_ns: 0, mono_ns: 0 },
        },
        trades: b.trades,
    }
}

/// The truth with its first `k` levels per side.
pub open spec fn seeded(kind: MarketKind, seed: u64, start_ms: u64, k: nat) -> TruthState
    decreases k,
{
    if k == 0 {
        TruthState {
            kind,
            bids: Seq::empty(),
            asks: Seq::empty(),
            bid_reserve: Seq::empty(),
            ask_reserve: Seq::empty(),
            last_id: 1_000_000,
            last_end_ms: start_ms,
            agg_id: 1,
            rng: seed | 1,
            history: Seq::empty(),
        }
    } else {
        let s = seeded(kind, seed, start_ms, (k - 1) as nat);
        let (x1, q1) = qty_drawn(s.rng);
        let (x2, q2) = qty_drawn(x1);
        TruthState {
            bids: put(s.bids, (15_000_000_000 - k * TICK) as i64, q1),
            asks: put(s.asks, (15_000_000_000 + k * TICK) as i64, q2),
            rng: x2,
            ..s
        }
    }
}

/// The truth of a new market.
pub open spec fn truth_start(kind: MarketKind, seed: u64, start_ms: u64) -> TruthState {
    seeded(kind, seed, start_ms, 400)
}

/// What some remembered tops hold.
pub open spec fn tops_of(v: Seq<(u64, Top)>) -> Seq<(u64, TopView)> {
    Seq::new(v.len(), |i: int| (v[i].0, v[i].1@))
}

/// The snapshot that the truth answers with.
pub open spec fn truth_snapshot(s: TruthState, rx: RxStamp) -> SnapView {
    SnapView {
        last_update_id: s.last_id,
        limit: 5000,
        bids: Seq::new(
            s.bids.len(),
            |i: int|
                Level {
                    px: Px(s.bids[s.bids.len() - 1 - i].0),
                    qty: Qty(s.bids[s.bids.len() - 1 - i].1),
                },
        ),
        asks: Seq::new(
            s.asks.len(),
            |i: int| Level { px: Px(s.asks[i].0), qty: Qty(s.asks[i].1) },
        ),
        exch_ts_ms: Some(s.last_end_ms),
        rolling: false,
        rx,
    }
}

/// The remembered top of an update id.
pub open spec fn top_at(h: Seq<(u64, TopView)>, id: u64) -> Option<TopView>
    decreases h.len(),
{
    if h.len() == 0 {
        None
    } else if h.last().0 == id {
        Some(h.last().1)
    } else {
        top_at(h.drop_last(), id)
    }
}

/// What a batch touched so far.
struct Touches {
    bids: SortedMap<i64, bool>,
    asks: SortedMap<i64, bool>,
    trades: Vec<AggTrade>,
}

/// A synthetic market whose state is known.
pub struct Truth {
    kind: MarketKind,
    bids: SortedMap<i64, i64>,
    asks: SortedMap<i64, i64>,
    bid_reserve: SortedMap<i64, i64>,
    ask_reserve: SortedMap<i64, i64>,
    last_id: u64,
    last_end_ms: u64,
    agg_id: u64,
    rng: Rng,
    history: Vec<(u64, Top)>,
}

impl Touches {
    fn touch(&mut self, bid: bool, px: i64)
        ensures
            final(self).trades@ == old(self).trades@,
            bid ==> final(self).bids@ == put(old(self).bids@, px, true) && final(self).asks@ == old(
                self,
            ).asks@,
            !bid ==> final(self).asks@ == put(old(self).asks@, px, true) && final(self).bids@
                == old(self).bids@,
    {
        if bid {
            self.bids.insert(px, true);
        } else {
            self.asks.insert(px, true);
        }
    }
}

/// The share of a quantity that a partial cancellation takes.
fn parted(cur: i64, share: u64) -> (r: i64)
    requires
        share < 90,
    ensures
        r == part(cur, share),
        cur >= 0 ==> 0 <= r <= cur,
{
    if cur < 0 {
        return cur;
    }
    let steps: i64 = cur / STEP;
    let x: i64 = share as i64 + 1;
    assert(0 <= steps * x <= 92_233_720_368_547 * 90) by (nonlinear_arith)
        requires
            0 <= steps <= 92_233_720_368_547,
            1 <= x <= 90,
    ;
    let p: i64 = steps * x / 100;
    assert(p <= steps) by (nonlinear_arith)
        requires
            p == steps * x / 100,
            0 <= steps,
            1 <= x <= 90,
    ;
    p * STEP
}

/// What a batch leaves alone.
pub open spec fn kept(s: TruthState, t: TruthState) -> bool {
    &&& t.kind == s.kind
    &&& t.last_id == s.last_id
    &&& t.last_end_ms == s.last_end_ms
    &&& t.history == s.history
}

proof fn lemma_sweep_keeps(b: BatchRun, bid: bool, rem: int, t: u64)
    ensures
        kept(b.truth, sweep(b, bid, rem, t).truth),
    decreases rem,
{
    reveal(execution);
    match front(b.truth, bid) {
        None => {},
        Some((px, avail)) => {
            if rem > 0 && avail > 0 {
                let take = if rem < avail {
                    rem
                } else {
                    avail as int
                };
                lemma_sweep_keeps(
                    execution(b, bid, px, avail, take as i64, t),
                    bid,
                    rem - take,
                    t,
                );
            }
        },
    }
}

proof fn lemma_operation_keeps(b: BatchRun, start: u64, end: u64)
    ensures
        kept(b.truth, operation(b, start, end).truth),
{
    reveal(limit_next);
    reveal(cancel_next);
    reveal(market_next);
    let (x1, side) = drawn(b.truth.rng, 2);
    let (x2, r) = drawn(x1, 100);
    let c = b.with(TruthState { rng: x2, ..b.truth });
    let (y1, q) = qty_drawn(c.truth.rng);
    let units = (q as int / 3) / STEP as int;
    let rem = (if units < 1 {
        1
    } else {
        units
    }) * STEP;
    let (y2, at) = drawn(y1, (end - start) as u64);
    let t = clamp_u64(start + 1 + at) as u64;
    lemma_sweep_keeps(c.with(TruthState { rng: y2, ..c.truth }), side == 0, rem, t);
}

proof fn lemma_operations_keep(b: BatchRun, n: nat, start: u64, end: u64)
    ensures
        kept(b.truth, operations(b, n, start, end).truth),
    decreases n,
{
    if n > 0 {
        lemma_operations_keep(b, (n - 1) as nat, start, end);
        lemma_operation_keeps(operations(b, (n - 1) as nat, start, end), start, end);
    }
}

proof fn lemma_extended_keeps(b: BatchRun, bid: bool, k: nat)
    ensures
        kept(b.truth, extended(b, bid, k).truth),
    decreases k,
{
    if k > 0 {
        lemma_extended_keeps(b, bid, (k - 1) as nat);
    }
}

proof fn lemma_batch_keeps(s: TruthState, start: u64, end: u64)
    ensures
        kept(s, step_batch(s, start, end).truth),
{
    reveal(step_batch);
    let (x1, n) = drawn(s.rng, 30);
    let b = BatchRun {
        truth: TruthState { rng: x1, ..s },
        bids: Seq::empty(),
        asks: Seq::empty(),
        trades: Seq::empty(),
    };
    lemma_operations_keep(b, (5 + n) as nat, start, end);
    let c = operations(b, (5 + n) as nat, start, end);
    lemma_extended_keeps(c, true, lacking(c.truth.bids));
    let d = extended(c, true, lacking(c.truth.bids));
    lemma_extended_keeps(d, false, lacking(d.truth.asks));
}

impl Truth {
    /// What the truth holds.
    pub closed spec fn content(&self) -> TruthState {
        TruthState {
            kind: self.kind,
            bids: self.bids@,
            asks: self.asks@,
            bid_reserve: self.bid_reserve@,
            ask_reserve: self.ask_reserve@,
            last_id: self.last_id,
            last_end_ms: self.last_end_ms,
            agg_id: self.agg_id,
            rng: self.rng.0,
            history: tops_of(self.history@),
        }
    }

    spec fn running(&self, t: Touches) -> BatchRun {
        BatchRun { truth: self.content(), bids: t.bids@, asks: t.asks@, trades: t.trades@ }
    }

    /// A new market around 150, four hundred levels per side, at instant `start_ms`.
    pub fn new(kind: MarketKind, seed: u64, start_ms: u64) -> (r: Self)
        ensures
            r.content() == truth_start(kind, seed, start_ms),
    {
        let mut t = Truth {
            kind,
            bids: SortedMap::new(),
            asks: SortedMap::new(),
            bid_reserve: SortedMap::new(),
            ask_reserve: SortedMap::new(),
            last_id: 1_000_000,
            last_end_ms: start_ms,
            agg_id: 1,
            rng: Rng(seed | 1),
            history: Vec::new(),
        };
        let mut k: i64 = 0;
        assert(t.content().history =~= Seq::<(u64, TopView)>::empty());
        while k < 400
            invariant
                0 <= k <= 400,
                t.content() == seeded(kind, seed, start_ms, k as nat),
            decreases 400 - k,
        {
            k += 1;
            let q = draw_qty(&mut t.rng);
            t.bids.insert(15_000_000_000 - k * TICK, q);
            let q = draw_qty(&mut t.rng);
            t.asks.insert(15_000_000_000 + k * TICK, q);
        }
        t
    }

    /// Last update id.
    pub fn last_id(&self) -> (r: u64)
        ensures
            r == self.content().last_id,
    {
        self.last_id
    }

    /// End of the last batch, ms.
    pub fn last_end_ms(&self) -> (r: u64)
        ensures
            r == self.content().last_end_ms,
    {
        self.last_end_ms
    }

    /// The remembered top of an update id.
    pub fn top_of(&self, id: u64) -> (r: Option<&Top>)
        ensures
            match r {
                Some(t) => top_at(self.content().history, id) == Some(t@),
                None => top_at(self.content().history, id) is None,
            },
    {
        let ghost h = self.content().history;
        let mut i: usize = self.history.len();
        assert(h.take(h.len() as int) =~= h);
        while i > 0
            invariant
                i <= self.history.len(),
                h == self.content().history,
                h.len() == self.history.len(),
                top_at(h, id) == top_at(h.take(i as int), id),
            decreases i,
        {
            i -= 1;
            assert(h.take(i + 1).drop_last() =~= h.take(i as int));
            assert(h.take(i + 1).last() == (self.history[i as int].0, self.history[i as int].1@));
            if self.history[i].0 == id {
                return Some(&self.history[i].1);
            }
        }
        None
    }

    /// The highest bid.
    pub fn highest_bid(&self) -> (r: Option<i64>)
        ensures
            r == (if self.content().bids.len() > 0 {
                Some(self.content().bids.last().0)
            } else {
                None
            }),
    {
        let n = self.bids.len();
        if n > 0 {
            Some(*self.bids.key_at(n - 1))
        } else {
            None
        }
    }

    /// The lowest ask.
    pub fn lowest_ask(&self) -> (r: Option<i64>)
        ensures
            r == (if self.content().asks.len() > 0 {
                Some(self.content().asks[0].0)
            } else {
                None
            }),
    {
        if self.asks.len() > 0 {
            Some(*self.asks.key_at(0))
        } else {
            None
        }
    }

    /// The best levels.
    pub fn top(&self) -> (r: Top)
        ensures
            r@ == self.content().top(),
    {
        let mut bids: Vec<(Px, Qty)> = Vec::new();
        let mut asks: Vec<(Px, Qty)> = Vec::new();
        let nb = self.bids.len();
        let na = self.asks.len();
        let ghost want = self.content().top();
        while bids.len() < TOP_CHECK && bids.len() < nb
            invariant
                nb == self.bids@.len(),
                want == self.content().top(),
                bids.len() <= TOP_CHECK,
                bids.len() <= nb,
                bids@ == want.bids.take(bids.len() as int),
            decreases TOP_CHECK - bids.len(),
        {
            let k: usize = nb - 1 - bids.len();
            bids.push((Px::from_raw(*self.bids.key_at(k)), Qty::from_raw(*self.bids.value_at(k))));
            assert(bids@ =~= want.bids.take(bids.len() as int));
        }
        while asks.len() < TOP_CHECK && asks.len() < na
            invariant
                na == self.asks@.len(),
                want == self.content().top(),
                asks.len() <= TOP_CHECK,
                asks.len() <= na,
                asks@ == want.asks.take(asks.len() as int),
            decreases TOP_CHECK - asks.len(),
        {
            let k: usize = asks.len();
            asks.push((Px::from_raw(*self.asks.key_at(k)), Qty::from_raw(*self.asks.value_at(k))));
            assert(asks@ =~= want.asks.take(asks.len() as int));
        }
        assert(bids@ =~= want.bids);
        assert(asks@ =~= want.asks);
        Top { bids, asks }
    }

    /// The snapshot that the market answers with, received as `rx` says.
    pub fn snapshot(&self, rx: RxStamp) -> (r: DepthSnapshot)
        ensures
            r@ == truth_snapshot(self.content(), rx),
    {
        let mut bids: Vec<Level> = Vec::new();
        let mut asks: Vec<Level> = Vec::new();
        let nb = self.bids.len();
        let na = self.asks.len();
        let ghost want = truth_snapshot(self.content(), rx);
        while bids.len() < nb
            invariant
                nb == self.bids@.len(),
                want == truth_snapshot(self.content(), rx),
                bids.len() <= nb,
                bids@ == want.bids.take(bids.len() as int),
            decreases nb - bids.len(),
        {
            let k: usize = nb - 1 - bids.len();
            bids.push(
                Level {
                    px: Px::from_raw(*self.bids.key_at(k)),
                    qty: Qty::from_raw(*self.bids.value_at(k)),
                },
            );
            assert(bids@ =~= want.bids.take(bids.len() as int));
        }
        while asks.len() < na
            invariant
                na == self.asks@.len(),
                want == truth_snapshot(self.content(), rx),
                asks.len() <= na,
                asks@ == want.asks.take(asks.len() as int),
            decreases na - asks.len(),
        {
            let k: usize = asks.len();
            asks.push(
                Level {
                    px: Px::from_raw(*self.asks.key_at(k)),
                    qty: Qty::from_raw(*self.asks.value_at(k)),
                },
            );
            assert(asks@ =~= want.asks.take(asks.len() as int));
        }
        assert(bids@ =~= want.bids);
        assert(asks@ =~= want.asks);
        DepthSnapshot {
            last_update_id: self.last_id,
            limit: 5000,
            bids,
            asks,
            exch_ts_ms: Some(self.last_end_ms),
            rolling: false,
            rx,
        }
    }

    fn level(&self, bid: bool, px: i64) -> (r: i64)
        ensures
            r == stored(self.content().side(bid), px),
    {
        let q = if bid {
            self.bids.get(&px)
        } else {
            self.asks.get(&px)
        };
        match q {
            Some(v) => *v,
            None => 0,
        }
    }

    fn hidden(&self, bid: bool, px: i64) -> (r: Option<i64>)
        ensures
            r == find(self.content().reserve(bid), px),
    {
        let q = if bid {
            self.bid_reserve.get(&px)
        } else {
            self.ask_reserve.get(&px)
        };
        match q {
            Some(v) => Some(*v),
            None => None,
        }
    }

    fn set_level(&mut self, bid: bool, px: i64, q: i64)
        ensures
            final(self).content() == old(self).content().with_side(
                bid,
                put(old(self).content().side(bid), px, q),
            ),
    {
        if bid {
            self.bids.insert(px, q);
        } else {
            self.asks.insert(px, q);
        }
    }

    fn remove_level(&mut self, bid: bool, px: i64)
        ensures
            final(self).content() == old(self).content().with_side(
                bid,
                del(old(self).content().side(bid), px),
            ),
    {
        if bid {
            self.bids.remove(&px);
        } else {
            self.asks.remove(&px);
        }
    }

    fn set_hidden(&mut self, bid: bool, px: i64, q: i64)
        ensures
            final(self).content() == old(self).content().with_reserve(
                bid,
                put(old(self).content().reserve(bid), px, q),
            ),
    {
        if bid {
            self.bid_reserve.insert(px, q);
        } else {
            self.ask_reserve.insert(px, q);
        }
    }

    fn remove_hidden(&mut self, bid: bool, px: i64)
        ensures
            final(self).content() == old(self).content().with_reserve(
                bid,
                del(old(self).content().reserve(bid), px),
            ),
    {
        if bid {
            self.bid_reserve.remove(&px);
        } else {
            self.ask_reserve.remove(&px);
        }
    }

    fn depth(&self, bid: bool) -> (r: usize)
        ensures
            r == self.content().side(bid).len(),
    {
        if bid {
            self.bids.len()
        } else {
            self.asks.len()
        }
    }

    fn entry(&self, bid: bool, i: usize) -> (r: (i64, i64))
        requires
            i < self.content().side(bid).len(),
        ensures
            r == self.content().side(bid)[i as int],
    {
        if bid {
            (*self.bids.key_at(i), *self.bids.value_at(i))
        } else {
            (*self.asks.key_at(i), *self.asks.value_at(i))
        }
    }

    fn limit(&mut self, bid: bool, t: &mut Touches)
        ensures
            final(self).running(*final(t)) == limit_next(old(self).running(*old(t)), bid),
    {
        reveal(limit_next);
        let ghost b = self.running(*t);
        let bb: i64 = match self.highest_bid() {
            Some(p) => p,
            None => 14_900_000_000,
        };
        let ba: i64 = match self.lowest_ask() {
            Some(p) => p,
            None => 15_100_000_000,
        };
        let near = self.rng.below(100);
        let dist: u64 = if near < 70 {
            self.rng.below(6)
        } else {
            self.rng.below(80)
        };
        let inside = sub_i64(ba, bb) > TICK && self.rng.below(100) < 60;
        let px: i64 = if inside {
            if bid {
                add_i64(bb, TICK)
            } else {
                sub_i64(ba, TICK)
            }
        } else if bid {
            let away = sub_i64(bb, dist as i64 * TICK);
            let edge = sub_i64(ba, TICK);
            if away < edge {
                away
            } else {
                edge
            }
        } else {
            let away = add_i64(ba, dist as i64 * TICK);
            let edge = add_i64(bb, TICK);
            if away > edge {
                away
            } else {
                edge
            }
        };
        let q = draw_qty(&mut self.rng);
        let level = add_i64(self.level(bid, px), q);
        self.set_level(bid, px, level);
        t.touch(bid, px);
        if self.rng.below(100) < 3 {
            let r = draw_qty(&mut self.rng);
            let more: i64 = r * 5;
            let cur: i64 = match self.hidden(bid, px) {
                Some(v) => v,
                None => 0,
            };
            self.set_hidden(bid, px, add_i64(cur, more));
        }
        assert(self.running(*t) =~= limit_next(b, bid));
    }

    fn cancel(&mut self, bid: bool, t: &mut Touches)
        ensures
            final(self).running(*final(t)) == cancel_next(old(self).running(*old(t)), bid),
    {
        reveal(cancel_next);
        let ghost b = self.running(*t);
        let n = self.depth(bid);
        if n == 0 {
            return;
        }
        let depth: u64 = if n < 30 {
            n as u64
        } else {
            30
        };
        let idx: usize = self.rng.below(depth) as usize;
        let (px, cur) = self.entry(
            bid,
            if bid {
                n - 1 - idx
            } else {
                idx
            },
        );
        let all = self.rng.below(100) < 25;
        let cut: i64 = if all {
            cur
        } else {
            let share = self.rng.below(90);
            parted(cur, share)
        };
        let left: i64 = cur - cut;
        if left <= 0 {
            self.remove_level(bid, px);
            self.remove_hidden(bid, px);
        } else {
            self.set_level(bid, px, left);
        }
        t.touch(bid, px);
        assert(self.running(*t) =~= cancel_next(b, bid));
    }

    /// Executes `take` of the level in front; a level that runs out reloads.
    fn consume(&mut self, bid: bool, px: i64, avail: i64, take: i64)
        requires
            0 <= take <= avail,
        ensures
            final(self).content() == consumed(old(self).content(), bid, px, avail, take),
    {
        let ghost s = self.content();
        let left: i64 = avail - take;
        if left == 0 {
            let res = self.hidden(bid, px);
            self.remove_level(bid, px);
            if let Some(res) = res {
                let refill: i64 = if res < 20_000 * STEP {
                    res
                } else {
                    20_000 * STEP
                };
                self.remove_hidden(bid, px);
                self.set_level(bid, px, refill);
                if res > refill {
                    self.set_hidden(bid, px, res - refill);
                }
            }
        } else {
            self.set_level(bid, px, left);
        }
        assert(self.content() =~= consumed(s, bid, px, avail, take));
    }

    /// One execution of a market order against the level in front.
    fn execute(&mut self, bid: bool, px: i64, avail: i64, take: i64, at: u64, t: &mut Touches)
        requires
            0 <= take <= avail,
        ensures
            final(self).running(*final(t)) == execution(
                old(self).running(*old(t)),
                bid,
                px,
                avail,
                take,
                at,
            ),
    {
        reveal(execution);
        let ghost b = self.running(*t);
        let perp = self.kind == MarketKind::Perp;
        self.consume(bid, px, avail, take);
        t.touch(bid, px);
        let rpi: i64 = if perp && self.rng.below(100) < 5 {
            (1 + self.rng.below(200) as i64) * STEP
        } else {
            0
        };
        self.agg_id = add_u64(self.agg_id, 1);
        let agg_id: u64 = self.agg_id;
        let tid: u64 = crate::num::to_u64(agg_id as i128 * 10);
        let more = self.rng.below(4);
        let late = self.rng.below(3);
        t.trades.push(
            AggTrade {
                agg_id,
                first_trade_id: tid,
                last_trade_id: add_u64(tid, more),
                px: Px::from_raw(px),
                qty: Qty::from_raw(add_i64(take, rpi)),
                qty_normal: if perp {
                    Some(Qty::from_raw(take))
                } else {
                    None
                },
                aggressor: if bid {
                    Aggressor::Sell
                } else {
                    Aggressor::Buy
                },
                trade_ts_ms: at,
                exch_ts_ms: add_u64(at, late),
                rx: RxStamp { line: 0, wall_ns: 0, mono_ns: 0 },
            },
        );
        assert(self.running(*t) =~= execution(b, bid, px, avail, take, at));
    }

    /// A market order against a side, in the batch `(start, end]`.
    fn market(&mut self, bid: bool, start: u64, end: u64, t: &mut Touches)
        requires
            start <= end,
        ensures
            final(self).running(*final(t)) == market_next(old(self).running(*old(t)), bid, start, end),
    {
        reveal(market_next);
        let ghost b = self.running(*t);
        let q = draw_qty(&mut self.rng);
        let units: i64 = q / 3 / STEP;
        let mut rem: i64 = (if units < 1 {
            1
        } else {
            units
        }) * STEP;
        let at: u64 = crate::num::to_u64(
            start as i128 + 1 + self.rng.below(end - start) as i128,
        );
        let ghost want = market_next(b, bid, start, end);
        assert(want == sweep(self.running(*t), bid, rem as int, at));
        while rem > 0
            invariant
                0 <= rem,
                want == market_next(old(self).running(*old(t)), bid, start, end),
                want == sweep(self.running(*t), bid, rem as int, at),
            decreases rem,
        {
            let n = self.depth(bid);
            if n == 0 {
                return;
            }
            let (px, avail) = self.entry(
                bid,
                if bid {
                    n - 1
                } else {
                    0
                },
            );
            if avail <= 0 {
                return;
            }
            let take: i64 = if rem < avail {
                rem
            } else {
                avail
            };
            self.execute(bid, px, avail, take, at, t);
            rem = rem - take;
        }
    }

    /// Brings a side to three hundred levels, beyond its far end.
    fn replenish(&mut self, bid: bool, t: &mut Touches)
        ensures
            final(self).running(*final(t)) == extended(
                old(self).running(*old(t)),
                bid,
                lacking(old(self).content().side(bid)),
            ),
    {
        let ghost b = self.running(*t);
        let ghost lack = lacking(b.truth.side(bid));
        let ghost mut k: nat = 0;
        let n0 = self.depth(bid);
        let mut todo: usize = if n0 < 300 {
            300 - n0
        } else {
            0
        };
        while todo > 0
            invariant
                k + todo == lack,
                self.running(*t) == extended(b, bid, k),
            decreases todo,
        {
            let n = self.depth(bid);
            let far: i64 = if bid {
                sub_i64(
                    if n > 0 {
                        self.entry(bid, 0).0
                    } else {
                        15_000_000_000
                    },
                    TICK,
                )
            } else {
                add_i64(
                    if n > 0 {
                        self.entry(bid, n - 1).0
                    } else {
                        15_000_000_000
                    },
                    TICK,
                )
            };
            let a: i128 = if far < 0 {
                -(far as i128)
            } else {
                far as i128
            };
            let q: i64 = (1 + (a / 1_000_000 * 7_919) % 20_000) as i64 * STEP;
            self.set_level(bid, far, q);
            t.touch(bid, far);
            proof {
                k = k + 1;
                assert(self.running(*t) =~= extended(b, bid, k));
            }
            todo -= 1;
        }
    }

    /// The levels of a diff.
    fn levels(&self, bid: bool, touched: &SortedMap<i64, bool>) -> (r: Vec<Level>)
        ensures
            r@ == diff_levels(touched@, self.content().side(bid)),
    {
        let mut out: Vec<Level> = Vec::new();
        let n = touched.len();
        let ghost want = diff_levels(touched@, self.content().side(bid));
        while out.len() < n
            invariant
                n == touched@.len(),
                want == diff_levels(touched@, self.content().side(bid)),
                out.len() <= n,
                out@ == want.take(out.len() as int),
            decreases n - out.len(),
        {
            let px: i64 = *touched.key_at(out.len());
            out.push(Level { px: Px::from_raw(px), qty: Qty::from_raw(self.level(bid, px)) });
            assert(out@ =~= want.take(out.len() as int));
        }
        assert(out@ =~= want);
        out
    }

    /// Remembers the top under an update id.
    fn remember(&mut self, id: u64)
        ensures
            final(self).content() == (TruthState {
                history: remembered(
                    old(self).content().history.push((id, old(self).content().top())),
                ),
                ..old(self).content()
            }),
    {
        let ghost s = self.content();
        let top = self.top();
        let mut h: Vec<(u64, Top)> = Vec::new();
        core::mem::swap(&mut h, &mut self.history);
        let ghost h0 = h@;
        h.push((id, top));
        let ghost h1 = s.history.push((id, s.top()));
        assert(tops_of(h@) =~= h1);
        assert(h1.skip(0) =~= h1);
        while h.len() > HISTORY
            invariant
                h.len() <= h1.len(),
                tops_of(h@) == h1.skip(h1.len() - h.len()),
                h.len() >= HISTORY || h.len() == h1.len(),
            decreases h.len(),
        {
            let ghost was = h@;
            h.remove(0);
            assert(tops_of(h@) =~= tops_of(was).skip(1));
            assert(tops_of(h@) =~= h1.skip(h1.len() - h.len()));
        }
        assert(tops_of(h@) =~= remembered(h1));
        self.history = h;
        assert(self.content() =~= TruthState { history: remembered(h1), ..s });
    }

    /// The operations of the batch `(start, end]`, and the levels that it brings back.
    fn batch(&mut self, start: u64, end: u64) -> (t: Touches)
        requires
            start <= end,
        ensures
            final(self).running(t) == step_batch(old(self).content(), start, end),
    {
        reveal(step_batch);
        let ghost s = self.content();
        let mut t = Touches { bids: SortedMap::new(), asks: SortedMap::new(), trades: Vec::new() };
        let n: u64 = 5 + self.rng.below(30);
        let ghost b = self.running(t);
        let ghost c = BatchRun {
            truth: TruthState { rng: drawn(s.rng, 30).0, ..s },
            bids: Seq::empty(),
            asks: Seq::empty(),
            trades: Seq::empty(),
        };
        assert(b =~= c);
        let mut i: u64 = 0;
        while i < n
            invariant
                i <= n,
                start <= end,
                self.running(t) == operations(b, i as nat, start, end),
            decreases n - i,
        {
            let bid = self.rng.below(2) == 0;
            let r = self.rng.below(100);
            if r < 55 {
                self.limit(bid, &mut t);
            } else if r < 85 {
                self.cancel(bid, &mut t);
            } else {
                self.market(bid, start, end, &mut t);
            }
            i += 1;
        }
        self.replenish(true, &mut t);
        self.replenish(false, &mut t);
        t
    }

    /// One batch, up to `end_ms`: the diff and the trades.
    pub fn step(&mut self, end_ms: u64) -> (r: (DepthDiff, Vec<AggTrade>))
        ensures
            ({
                let n = step_next(old(self).content(), end_ms);
                &&& final(self).content() == n.truth
                &&& r.0@ == n.diff
                &&& r.1@ == n.trades
            }),
    {
        let ghost s = self.content();
        let start: u64 = self.last_end_ms;
        let end: u64 = if end_ms <= start {
            add_u64(start, 1)
        } else {
            end_ms
        };
        let t = self.batch(start, end);
        let ghost b = step_batch(s, start, end);
        proof {
            lemma_batch_keeps(s, start, end);
        }
        let bids = self.levels(true, &t.bids);
        let asks = self.levels(false, &t.asks);
        let perp = self.kind == MarketKind::Perp;
        let prev: u64 = self.last_id;
        let jump: u64 = if perp {
            self.rng.below(5)
        } else {
            0
        };
        let first: u64 = crate::num::to_u64(prev as i128 + 1 + jump as i128);
        let more = self.rng.below(4);
        let last: u64 = add_u64(first, more);
        self.last_id = last;
        self.last_end_ms = end;
        self.remember(last);
        let diff = DepthDiff {
            first_id: first,
            last_id: last,
            prev_last_id: if perp {
                Some(prev)
            } else {
                None
            },
            exch_ts_ms: if perp {
                add_u64(end, 1)
            } else {
                end
            },
            match_ts_ms: if perp {
                Some(end)
            } else {
                None
            },
            bids,
            asks,
            rx: RxStamp { line: 0, wall_ns: 0, mono_ns: 0 },
        };
        (diff, t.trades)
    }
}

} // verus!

//! What the simulated market does, and what becomes of what it tells.

use crate::chaos::{
    after_outage, check_next, line_next, outage_drawn, Check, Fate, LineState, SimConfig,
};
use crate::event::{Aggressor, RxStamp};
use crate::instrument::MarketKind;
use crate::ordmap::{lemma_del, lemma_entry_found, lemma_put, sorted};
use crate::sim::{
    cancel_next, chanced, consumed, drawn, execution, front, limit_next, qty_drawn, stored, sweep,
    top_at, truth_snapshot, BatchRun, TopView, TruthState,
};
use vstd::prelude::*;

verus! {

/// A draw is under its limit, and one without a limit is zero; what has no chance never
/// happens, and what happens under a chance happens under any greater.
pub proof fn law_draws_keep_their_limit(x: u64, n: u64, t: u64, u: u64)
    requires
        t <= u,
    ensures
        n > 0 ==> drawn(x, n).1 < n,
        drawn(x, 0).1 == 0,
        !chanced(x, None).1 && chanced(x, None).0 == x,
        chanced(x, Some(t)).1 ==> chanced(x, Some(u)).1,
        chanced(x, Some(t)).0 == chanced(x, Some(u)).0,
{
}

/// A quantity drawn is a whole number of steps, at least one.
pub proof fn law_quantities_are_whole_steps(x: u64)
    ensures
        qty_drawn(x).1 >= 100_000,
        qty_drawn(x).1 <= 22_000_000_000,
        qty_drawn(x).1 as int % 100_000 == 0,
{
}

/// What an execution takes leaves its level, shown or in reserve, and no other; a level that
/// runs out is reloaded from its reserve. The other side is not touched.
pub proof fn law_execution_takes_from_its_level(
    s: TruthState,
    bid: bool,
    px: i64,
    avail: i64,
    take: i64,
    other: i64,
)
    requires
        sorted(s.side(bid)),
        sorted(s.reserve(bid)),
        stored(s.side(bid), px) == avail,
        0 < take <= avail,
        stored(s.reserve(bid), px) >= 0,
        other != px,
    ensures
        ({
            let u = consumed(s, bid, px, avail, take);
            &&& stored(u.side(bid), px) + stored(u.reserve(bid), px) == stored(s.side(bid), px)
                + stored(s.reserve(bid), px) - take
            &&& take < avail ==> stored(u.side(bid), px) == avail - take && u.reserve(bid)
                == s.reserve(bid)
            &&& take == avail && stored(s.reserve(bid), px) > 0 ==> stored(u.side(bid), px) > 0
            &&& take == avail && stored(s.reserve(bid), px) == 0 ==> stored(u.side(bid), px) == 0
            &&& stored(u.side(bid), other) == stored(s.side(bid), other)
            &&& stored(u.reserve(bid), other) == stored(s.reserve(bid), other)
            &&& u.side(!bid) == s.side(!bid) && u.reserve(!bid) == s.reserve(!bid)
        }),
{
    let book = s.side(bid);
    let res = s.reserve(bid);
    let left = (avail - take) as i64;
    let held = stored(res, px);
    let refill = if held < 20_000 * 100_000 {
        held
    } else {
        2_000_000_000i64
    };
    let gone = crate::ordmap::del(book, px);
    let r = crate::ordmap::del(res, px);
    lemma_put(book, px, left);
    lemma_del(book, px);
    lemma_del(res, px);
    lemma_put(gone, px, refill);
    lemma_put(r, px, (held - refill) as i64);
}

/// An execution is told as a trade: the taker sold where a bid was eaten and bought where an
/// ask was, at the price of the level. Of a perpetual it is told how much of it was in the
/// book; of spot all of it was.
pub proof fn law_execution_is_told(
    b: BatchRun,
    bid: bool,
    px: i64,
    avail: i64,
    take: i64,
    t: u64,
)
    requires
        b.truth.agg_id < 0x1000_0000_0000_0000,
        0 < take <= 0x1000_0000_0000_0000,
        t < u64::MAX - 2,
    ensures
        ({
            let u = execution(b, bid, px, avail, take, t);
            let n = b.trades.len() as int;
            let x = u.trades[n];
            &&& u.trades.len() == n + 1
            &&& forall|i: int| 0 <= i < n ==> #[trigger] u.trades[i] == b.trades[i]
            &&& x.aggressor == (if bid {
                Aggressor::Sell
            } else {
                Aggressor::Buy
            })
            &&& x.px.0 == px
            &&& b.truth.kind == MarketKind::Spot ==> x.qty.0 == take && x.qty_normal is None
            &&& b.truth.kind == MarketKind::Perp ==> x.qty.0 >= take && (
            x.qty_normal matches Some(q) && q.0 == take)
            &&& x.agg_id == b.truth.agg_id + 1 && u.truth.agg_id == x.agg_id
            &&& 1 <= x.last_trade_id - x.first_trade_id + 1 <= 4
            &&& x.trade_ts_ms == t && t <= x.exch_ts_ms <= t + 2
            &&& u.truth.side(bid) == consumed(b.truth, bid, px, avail, take).side(bid)
        }),
{
    reveal(execution);
}

/// An execution adds one trade, of its own taker and instant.
proof fn lemma_one_more(b: BatchRun, bid: bool, px: i64, avail: i64, take: i64, t: u64)
    ensures
        ({
            let u = execution(b, bid, px, avail, take, t);
            let n = b.trades.len() as int;
            &&& u.trades.len() == n + 1
            &&& forall|i: int| 0 <= i < n ==> #[trigger] u.trades[i] == b.trades[i]
            &&& u.trades[n].aggressor == (if bid {
                Aggressor::Sell
            } else {
                Aggressor::Buy
            })
            &&& u.trades[n].trade_ts_ms == t
        }),
{
    reveal(execution);
}

/// The trades of a market order are all of its own taker and instant, and come after those
/// there were.
pub proof fn law_market_order_is_one_taker(b: BatchRun, bid: bool, rem: int, t: u64)
    ensures
        ({
            let u = sweep(b, bid, rem, t);
            &&& u.trades.len() >= b.trades.len()
            &&& forall|i: int| 0 <= i < b.trades.len() ==> #[trigger] u.trades[i] == b.trades[i]
            &&& forall|i: int|
                b.trades.len() <= i < u.trades.len() ==> (#[trigger] u.trades[i]).aggressor == (
                if bid {
                    Aggressor::Sell
                } else {
                    Aggressor::Buy
                }) && u.trades[i].trade_ts_ms == t
            &&& rem <= 0 ==> u == b
        }),
    decreases rem,
{
    if front(b.truth, bid) is Some {
        let (px, avail) = front(b.truth, bid)->0;
        if rem > 0 && avail > 0 {
            let take = if rem < avail {
                rem
            } else {
                avail as int
            };
            let c = execution(b, bid, px, avail, take as i64, t);
            law_market_order_is_one_taker(c, bid, rem - take, t);
            lemma_one_more(b, bid, px, avail, take as i64, t);
            let u = sweep(c, bid, rem - take, t);
            assert(u == sweep(b, bid, rem, t));
            assert(c.trades.len() == b.trades.len() + 1);
            assert forall|i: int| 0 <= i < b.trades.len() implies #[trigger] u.trades[i]
                == b.trades[i] by {
                assert(u.trades[i] == c.trades[i]);
            }
            assert(u.trades[b.trades.len() as int] == c.trades[b.trades.len() as int]);
        }
    }
}

/// A market order meets the best level of the side: the highest bid or the lowest ask.
pub proof fn law_best_level_is_met_first(s: TruthState, bid: bool)
    requires
        sorted(s.side(bid)),
    ensures
        front(s, bid) is None <==> s.side(bid).len() == 0,
        front(s, bid) matches Some((px, q)) ==> {
            &&& stored(s.side(bid), px) == q
            &&& forall|i: int|
                0 <= i < s.side(bid).len() ==> {
                    let p = (#[trigger] s.side(bid)[i]).0;
                    if bid {
                        p <= px
                    } else {
                        p >= px
                    }
                }
        },
{
    let m = s.side(bid);
    if m.len() > 0 {
        lemma_entry_found(
            m,
            if bid {
                m.len() - 1
            } else {
                0
            },
        );
        assert forall|i: int| 0 <= i < m.len() implies ({
            let p = (#[trigger] m[i]).0;
            if bid {
                p <= m[m.len() - 1].0
            } else {
                p >= m[0].0
            }
        }) by {
            if i < m.len() - 1 {
                assert(crate::ordmap::key_lt(m[i].0, m[m.len() - 1].0));
            }
            if i > 0 {
                assert(crate::ordmap::key_lt(m[0].0, m[i].0));
            }
        }
    }
}

/// A limit order adds to one level of its side, and trades nothing.
#[verifier::rlimit(40)]
pub proof fn law_limit_order_adds_to_one_level(b: BatchRun, bid: bool) -> (px: i64)
    requires
        sorted(b.truth.side(bid)),
    ensures
        ({
            let u = limit_next(b, bid);
            &&& u.trades == b.trades
            &&& u.truth.side(!bid) == b.truth.side(!bid)
            &&& stored(b.truth.side(bid), px) <= 0x1000_0000_0000_0000 ==> stored(
                u.truth.side(bid),
                px,
            ) >= stored(b.truth.side(bid), px) + 100_000
            &&& forall|k: i64|
                k != px ==> #[trigger] stored(u.truth.side(bid), k) == stored(
                    b.truth.side(bid),
                    k,
                )
        }),
{
    reveal(limit_next);
    let s = b.truth;
    let u = limit_next(b, bid);
    let bb = s.best_bid();
    let ba = s.best_ask();
    let (x1, near) = drawn(s.rng, 100);
    let (x2, dist) = if near < 70 {
        drawn(x1, 6)
    } else {
        drawn(x1, 80)
    };
    let wide = crate::num::clamp_i64(ba - bb) > crate::sim::TICK;
    let (x3, quote) = if wide {
        drawn(x2, 100)
    } else {
        (x2, 100u64)
    };
    let away = if bid {
        crate::num::clamp_i64(bb - dist * crate::sim::TICK)
    } else {
        crate::num::clamp_i64(ba + dist * crate::sim::TICK)
    };
    let edge = if bid {
        crate::num::clamp_i64(ba - crate::sim::TICK)
    } else {
        crate::num::clamp_i64(bb + crate::sim::TICK)
    };
    let px = (if wide && quote < 60 {
        if bid {
            crate::num::clamp_i64(bb + crate::sim::TICK)
        } else {
            crate::num::clamp_i64(ba - crate::sim::TICK)
        }
    } else if bid {
        if away < edge {
            away
        } else {
            edge
        }
    } else if away > edge {
        away
    } else {
        edge
    }) as i64;
    let q = qty_drawn(x3).1;
    law_quantities_are_whole_steps(x3);
    let level = crate::num::clamp_i64(stored(s.side(bid), px) + q) as i64;
    lemma_put(s.side(bid), px, level);
    assert(u.truth.side(bid) == crate::ordmap::put(s.side(bid), px, level));
    px
}

/// A cancellation takes from one level of its side, at most all of it, and trades nothing.
#[verifier::rlimit(40)]
pub proof fn law_cancellation_takes_from_one_level(b: BatchRun, bid: bool) -> (px: i64)
    requires
        sorted(b.truth.side(bid)),
        forall|i: int| 0 <= i < b.truth.side(bid).len() ==> (#[trigger] b.truth.side(bid)[i]).1 > 0,
    ensures
        ({
            let u = cancel_next(b, bid);
            &&& u.trades == b.trades
            &&& u.truth.side(!bid) == b.truth.side(!bid)
            &&& 0 <= stored(u.truth.side(bid), px) <= stored(b.truth.side(bid), px)
            &&& forall|k: i64|
                k != px ==> #[trigger] stored(u.truth.side(bid), k) == stored(
                    b.truth.side(bid),
                    k,
                )
        }),
{
    reveal(cancel_next);
    let s = b.truth;
    let book = s.side(bid);
    if book.len() == 0 {
        0
    } else {
        let depth = if book.len() < 30 {
            book.len() as u64
        } else {
            30u64
        };
        let (x1, idx) = drawn(s.rng, depth);
        let at = if bid {
            book.len() - 1 - idx
        } else {
            idx as int
        };
        assert(0 <= at < book.len());
        let (px, cur) = book[at];
        lemma_entry_found(book, at);
        let (x2, all) = drawn(x1, 100);
        let (x, share) = drawn(x2, 90);
        let cut = if all < 25 {
            cur as int
        } else {
            crate::sim::part(cur, share)
        };
        assert(share < 90);
        let steps = cur as int / 100_000;
        assert(0 <= (steps * (1 + share)) / 100 <= steps) by (nonlinear_arith)
            requires
                0 <= steps,
                0 <= share < 90,
        ;
        assert(0 <= cut <= cur);
        let left = (cur - cut) as i64;
        lemma_put(book, px, left);
        lemma_del(book, px);
        px
    }
}

/// A snapshot shows all of the market as it stands: bids from the highest and asks from the
/// lowest, at the id and the time of the last batch.
pub proof fn law_truth_is_shown_whole(s: TruthState, rx: RxStamp)
    ensures
        ({
            let x = truth_snapshot(s, rx);
            let n = s.bids.len();
            &&& x.last_update_id == s.last_id && x.exch_ts_ms == Some(s.last_end_ms)
            &&& x.limit == 5000 && !x.rolling && x.rx == rx
            &&& x.bids.len() == s.bids.len() && x.asks.len() == s.asks.len()
            &&& forall|i: int|
                0 <= i < n ==> (#[trigger] x.bids[i]).px.0 == s.bids[n - 1 - i].0
                    && x.bids[i].qty.0 == s.bids[n - 1 - i].1
            &&& forall|i: int|
                0 <= i < s.asks.len() ==> (#[trigger] x.asks[i]).px.0 == s.asks[i].0
                    && x.asks[i].qty.0 == s.asks[i].1
        }),
{
}

/// The top of the market shows its best levels, best first.
pub proof fn law_truth_top_is_the_best(s: TruthState)
    ensures
        ({
            let x = s.top();
            let n = s.bids.len();
            &&& x.bids.len() == (if n < 10 {
                n
            } else {
                10
            })
            &&& x.asks.len() == (if s.asks.len() < 10 {
                s.asks.len()
            } else {
                10
            })
            &&& forall|i: int|
                0 <= i < x.bids.len() ==> (#[trigger] x.bids[i]).0.0 == s.bids[n - 1 - i].0
                    && x.bids[i].1.0 == s.bids[n - 1 - i].1
            &&& forall|i: int|
                0 <= i < x.asks.len() ==> (#[trigger] x.asks[i]).0.0 == s.asks[i].0
                    && x.asks[i].1.0 == s.asks[i].1
        }),
{
}

/// The remembered top of an id is the latest under it.
pub proof fn law_top_is_of_its_id(h: Seq<(u64, TopView)>, id: u64)
    ensures
        top_at(h, id) is None <==> forall|i: int| 0 <= i < h.len() ==> (#[trigger] h[i]).0 != id,
        top_at(h, id) matches Some(t) ==> exists|i: int|
            0 <= i < h.len() && #[trigger] h[i] == (id, t) && forall|j: int|
                i < j < h.len() ==> (#[trigger] h[j]).0 != id,
    decreases h.len(),
{
    if h.len() > 0 {
        let f = h.drop_last();
        law_top_is_of_its_id(f, id);
        assert(forall|i: int| 0 <= i < f.len() ==> f[i] == h[i]);
        assert(h[h.len() - 1] == h.last());
        if h.last().0 != id && top_at(f, id) is Some {
            let t = top_at(f, id)->0;
            let i = choose|i: int|
                0 <= i < f.len() && #[trigger] f[i] == (id, t) && forall|j: int|
                    i < j < f.len() ==> (#[trigger] f[j]).0 != id;
            assert(h[i] == (id, t));
            assert forall|j: int| i < j < h.len() implies (#[trigger] h[j]).0 != id by {
                if j < f.len() {
                    assert(f[j] == h[j]);
                }
            }
        } else if h.last().0 == id {
            assert(h[h.len() - 1].0 == id);
        }
    }
}

/// An outage lasts from five to twenty-nine seconds, and comes from half to one and a half
/// of its period later; without a period there is none.
pub proof fn law_outages_keep_their_times(x: u64, every_s: u64, now: u64, s: LineState)
    requires
        every_s < 1_000_000_000,
        now < 0x1000_0000_0000_0000,
    ensures
        every_s == 0 ==> outage_drawn(x, every_s, now).1 is None,
        every_s > 0 ==> (outage_drawn(x, every_s, now).1 matches Some(t) && now + (every_s / 2)
            * 1000 <= t <= now + (every_s / 2 + every_s) * 1000),
        s.next_outage matches Some(t) ==> (after_outage(s, now).1 <==> now >= t),
        s.next_outage is None ==> !after_outage(s, now).1,
        after_outage(s, now).1 ==> (after_outage(s, now).0.down_until matches Some(u) && now + 5000
            <= u <= now + 29_000),
        !after_outage(s, now).1 ==> after_outage(s, now).0 == s,
{
}

/// A line that is down cuts everything; one that is up loses only by chance, and trades are
/// delivered without jitter.
pub proof fn law_line_tells_what_becomes(s: LineState, cfg: SimConfig, now: u64, is_trade: bool)
    requires
        now < 0x1000_0000_0000_0000,
        cfg.jitter_ms < 0x1000_0000_0000_0000,
        s.next_outage is None,
    ensures
        ({
            let (n, step) = line_next(s, cfg, now, is_trade);
            &&& !step.went_down
            &&& step.fate is Cut <==> s.down_until is Some && now < s.down_until->0
            &&& step.came_up <==> s.down_until is Some && now >= s.down_until->0
            &&& step.came_up ==> n.down_until is None
            &&& cfg.drop is None ==> !(step.fate is Dropped)
            &&& is_trade && s.deliver_at <= now ==> (step.fate matches Fate::Deliver(at) ==> at
                == now)
        }),
{
}

/// A live view is checked once for each id: it agrees where every level that both show is
/// the same, and differs where one is not.
pub proof fn law_check_compares_level_by_level(
    recent: Seq<u64>,
    truth: TruthState,
    live: bool,
    id: u64,
    bids: Seq<(crate::fixed::Px, crate::fixed::Qty)>,
    asks: Seq<(crate::fixed::Px, crate::fixed::Qty)>,
)
    ensures
        ({
            let (r, c) = check_next(recent, truth, live, id, bids, asks);
            &&& c == Check::Skipped <==> !live || recent.contains(id) || top_at(truth.history, id)
                is None
            &&& c == Check::Skipped ==> r == recent
            &&& c != Check::Skipped ==> r.contains(id) && r.len() <= recent.len() + 1
            &&& c != Check::Skipped ==> (top_at(truth.history, id) matches Some(t) && (c
                == Check::Agrees <==> (forall|i: int|
                0 <= i < bids.len() && i < t.bids.len() ==> #[trigger] bids[i] == t.bids[i]) && (
            forall|i: int|
                0 <= i < asks.len() && i < t.asks.len() ==> #[trigger] asks[i] == t.asks[i])))
        }),
{
    let r = recent.push(id);
    assert(r[r.len() - 1] == id);
    if r.len() > 64 {
        assert(r.skip(1)[r.len() - 2] == id);
    }
}

} // verus!

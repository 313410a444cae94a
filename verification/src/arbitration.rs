//! What the synchronised book promises about the exchange behind it.
//!
//! An [`Exchange`] is the history that the lines report: a book, and the events
//! that changed it. Its events come in any order, any number of times or never,
//! and its snapshots at any moment.

use crate::book::{ladder_of, ladder_set, BookState};
use crate::conservation::{
    bridged, fed, feedable, lemma_bridged, lemma_feed_step, lemma_skip_stored,
    lemma_take, lemma_trimmed, own_key, run, stored, take, tidy, Input,
};
use crate::event::{DepthDiff, DepthSnapshot, Level, Side};
use crate::fixed::{Px, Qty};
use crate::observer::BookObserver;
use crate::ordmap::{find, holds, lemma_del, lemma_put, lemma_same_finds, put, sorted};
use crate::rule::{BinanceFuturesRule, BinanceSpotRule, Class, OkxRule, SeqRule};
use crate::sync::{
    absorb_diff, apply_next, cross_resyncs, drain_next, feed_next, gathered, inc, install_next,
    levels_next, live_next, on_diff_next, on_snapshot_next, on_tick_next, rebuilt, seek_next,
    stale_next, start, trimmed, Phase, Progress, StatsView, Step, SyncConfig, SyncState,
};
use vstd::prelude::*;

verus! {

/// An event that the exchange published.
pub struct Published {
    /// First update id.
    pub first: u64,
    /// Last update id.
    pub last: u64,
    /// Last update id of the event before it, where the venue gives it.
    pub prev: Option<u64>,
    /// Bids that it changed.
    pub bids: Seq<Level>,
    /// Asks that it changed.
    pub asks: Seq<Level>,
}

/// The history of an exchange.
pub struct Exchange {
    /// Update id of the first book.
    pub id0: u64,
    /// Bids of the first book.
    pub bids0: Seq<(Px, Qty)>,
    /// Asks of the first book.
    pub asks0: Seq<(Px, Qty)>,
    /// The events, in order.
    pub events: Seq<Published>,
}

/// A ladder after the levels of an event, in order.
pub open spec fn set_all(s: Seq<(Px, Qty)>, levels: Seq<Level>) -> Seq<(Px, Qty)>
    decreases levels.len(),
{
    if levels.len() == 0 {
        s
    } else {
        ladder_set(set_all(s, levels.drop_last()), levels.last().px, levels.last().qty)
    }
}

impl Exchange {
    /// The update id after `k` events.
    pub open spec fn id(self, k: int) -> u64 {
        if k <= 0 {
            self.id0
        } else {
            self.events[k - 1].last
        }
    }

    /// The bids after `k` events.
    pub open spec fn bids(self, k: int) -> Seq<(Px, Qty)>
        decreases k,
    {
        if k <= 0 {
            self.bids0
        } else {
            set_all(self.bids(k - 1), self.events[k - 1].bids)
        }
    }

    /// The asks after `k` events.
    pub open spec fn asks(self, k: int) -> Seq<(Px, Qty)>
        decreases k,
    {
        if k <= 0 {
            self.asks0
        } else {
            set_all(self.asks(k - 1), self.events[k - 1].asks)
        }
    }

    /// How many events there are.
    pub open spec fn len(self) -> int {
        self.events.len() as int
    }

    /// The ids grow, and each event starts after the one before it.
    pub open spec fn wf(self) -> bool {
        &&& sorted(self.bids0)
        &&& sorted(self.asks0)
        &&& forall|k: int|
            1 <= k <= self.len() ==> #[trigger] self.id(k - 1) < self.events[k - 1].first
                && self.events[k - 1].first <= self.events[k - 1].last
    }

    /// The diff `d` reports event `k`.
    pub open spec fn delivers(self, k: int, d: DepthDiff) -> bool {
        &&& 1 <= k <= self.len()
        &&& d.first_id == self.events[k - 1].first
        &&& d.last_id == self.events[k - 1].last
        &&& d.prev_last_id == self.events[k - 1].prev
        &&& d.bids@ == self.events[k - 1].bids
        &&& d.asks@ == self.events[k - 1].asks
    }

    /// The snapshot shows the book after `j` events.
    pub open spec fn shows(self, j: int, snap: DepthSnapshot) -> bool {
        &&& 0 <= j <= self.len()
        &&& snap.last_update_id == self.id(j)
        &&& ladder_of(snap.bids@) == self.bids(j)
        &&& ladder_of(snap.asks@) == self.asks(j)
    }

    /// The diffs that report some event.
    pub open spec fn reports(self) -> spec_fn((u64, u64), DepthDiff) -> bool {
        |key: (u64, u64), d: DepthDiff| exists|k: int| #[trigger] self.delivers(k, d)
    }

    /// The class of event `k` against the book after `i` events.
    pub open spec fn chain_at<R: SeqRule>(self, r: R, k: int, i: int) -> Class {
        r.chains(
            self.events[k - 1].first,
            self.events[k - 1].last,
            self.events[k - 1].prev,
            self.id(i),
        )
    }

    /// The class of event `k` against a snapshot after `j` events.
    pub open spec fn bridge_at<R: SeqRule>(self, r: R, k: int, j: int) -> Class {
        r.bridges(
            self.events[k - 1].first,
            self.events[k - 1].last,
            self.events[k - 1].prev,
            self.id(j),
        )
    }
}

/// The rule reads the ids of the exchange rightly.
pub open spec fn fits<R: SeqRule>(r: R, w: Exchange) -> bool {
    &&& forall|k: int, i: int|
        1 <= k <= w.len() && 0 <= i <= w.len() ==> #[trigger] w.chain_at(r, k, i) == (if k <= i {
            Class::Stale
        } else if k == i + 1 {
            Class::Next
        } else {
            Class::Ahead
        })
    &&& forall|k: int, j: int|
        #![trigger w.bridge_at(r, k, j)]
        1 <= k <= w.len() && 0 <= j <= w.len() ==> {
            &&& k < j ==> w.bridge_at(r, k, j) == Class::Stale
            &&& k == j ==> w.bridge_at(r, k, j) == Class::Stale || w.bridge_at(r, k, j)
                == Class::Next
            &&& k == j + 1 ==> w.bridge_at(r, k, j) == Class::Next || w.bridge_at(r, k, j)
                == Class::Ahead
            &&& k > j + 1 ==> w.bridge_at(r, k, j) == Class::Ahead
        }
}

/// The rule calls no snapshot too old that an event in hand precedes or bridges.
pub open spec fn opens<R: SeqRule>(r: R, w: Exchange) -> bool {
    forall|k: int, j: int|
        #![trigger w.bridge_at(r, k, j)]
        1 <= k <= w.len() && 0 <= j <= w.len() && (w.bridge_at(r, k, j) == Class::Stale
            || w.bridge_at(r, k, j) == Class::Next) ==> !r.too_old(
            w.events[k - 1].first,
            w.id(j),
        )
}

/// The ids of a well formed exchange grow strictly.
pub proof fn lemma_ids_grow(w: Exchange, i: int, j: int)
    requires
        w.wf(),
        0 <= i < j <= w.len(),
    ensures
        w.id(i) < w.id(j),
        w.id(i) < w.events[j - 1].first,
    decreases j - i,
{
    if i + 1 < j {
        lemma_ids_grow(w, i, j - 1);
    }
    assert(w.id(j - 1) < w.events[j - 1].first);
}

/// The spot rule fits every exchange whose ids are contiguous.
pub proof fn law_spot_fits(w: Exchange)
    requires
        w.wf(),
        forall|k: int| 1 <= k <= w.len() ==> w.events[k - 1].first == #[trigger] w.id(k - 1) + 1,
    ensures
        fits(BinanceSpotRule, w),
        opens(BinanceSpotRule, w),
{
    let r = BinanceSpotRule;
    assert forall|k: int, i: int| 1 <= k <= w.len() && 0 <= i <= w.len() implies #[trigger] w.chain_at(
        r, k, i) == (if k <= i {
        Class::Stale
    } else if k == i + 1 {
        Class::Next
    } else {
        Class::Ahead
    }) by {
        assert(w.events[k - 1].first == w.id(k - 1) + 1);
        if k < i {
            lemma_ids_grow(w, k, i);
        } else if i < k {
            lemma_ids_grow(w, i, k);
            if i < k - 1 {
                lemma_ids_grow(w, i, k - 1);
            }
        }
    }
    assert forall|k: int, j: int|
        #![trigger w.bridge_at(r, k, j)]
        1 <= k <= w.len() && 0 <= j <= w.len() implies {
        &&& k < j ==> w.bridge_at(r, k, j) == Class::Stale
        &&& k == j ==> w.bridge_at(r, k, j) == Class::Stale || w.bridge_at(r, k, j) == Class::Next
        &&& k == j + 1 ==> w.bridge_at(r, k, j) == Class::Next || w.bridge_at(r, k, j)
            == Class::Ahead
        &&& k > j + 1 ==> w.bridge_at(r, k, j) == Class::Ahead
    } by {
        assert(w.bridge_at(r, k, j) == w.chain_at(r, k, j));
    }
    assert forall|k: int, j: int|
        #![trigger w.bridge_at(r, k, j)]
        1 <= k <= w.len() && 0 <= j <= w.len() && (w.bridge_at(r, k, j) == Class::Stale
            || w.bridge_at(r, k, j) == Class::Next) implies !r.too_old(
        w.events[k - 1].first,
        w.id(j),
    ) by {
        assert(w.id(k - 1) < w.events[k - 1].first && w.events[k - 1].first <= w.events[k - 1].last);
    }
}

/// The futures rule fits every exchange whose events name the one before them.
pub proof fn law_futures_fits(w: Exchange)
    requires
        w.wf(),
        forall|k: int|
            1 <= k <= w.len() ==> w.events[k - 1].prev == Some(#[trigger] w.id(k - 1)),
    ensures
        fits(BinanceFuturesRule, w),
        opens(BinanceFuturesRule, w),
{
    let r = BinanceFuturesRule;
    assert forall|k: int, i: int| 1 <= k <= w.len() && 0 <= i <= w.len() implies #[trigger] w.chain_at(
        r, k, i) == (if k <= i {
        Class::Stale
    } else if k == i + 1 {
        Class::Next
    } else {
        Class::Ahead
    }) by {
        assert(w.events[k - 1].prev == Some(w.id(k - 1)));
        if k < i {
            lemma_ids_grow(w, k, i);
        } else if i < k {
            lemma_ids_grow(w, i, k);
            if i < k - 1 {
                lemma_ids_grow(w, i, k - 1);
            }
        }
    }
    assert forall|k: int, j: int|
        #![trigger w.bridge_at(r, k, j)]
        1 <= k <= w.len() && 0 <= j <= w.len() implies {
        &&& k < j ==> w.bridge_at(r, k, j) == Class::Stale
        &&& k == j ==> w.bridge_at(r, k, j) == Class::Stale || w.bridge_at(r, k, j) == Class::Next
        &&& k == j + 1 ==> w.bridge_at(r, k, j) == Class::Next || w.bridge_at(r, k, j)
            == Class::Ahead
        &&& k > j + 1 ==> w.bridge_at(r, k, j) == Class::Ahead
    } by {
        assert(w.id(k - 1) < w.events[k - 1].first);
        if k < j {
            lemma_ids_grow(w, k, j);
        } else if j < k {
            lemma_ids_grow(w, j, k);
        }
    }
    assert forall|k: int, j: int|
        #![trigger w.bridge_at(r, k, j)]
        1 <= k <= w.len() && 0 <= j <= w.len() && (w.bridge_at(r, k, j) == Class::Stale
            || w.bridge_at(r, k, j) == Class::Next) implies !r.too_old(
        w.events[k - 1].first,
        w.id(j),
    ) by {
        assert(w.id(k - 1) < w.events[k - 1].first && w.events[k - 1].first <= w.events[k - 1].last);
    }
}

/// The OKX rule fits every exchange whose events name the one before them; where
/// they also start right after it, it bridges every snapshot that it can.
pub proof fn law_okx_fits(w: Exchange)
    requires
        w.wf(),
        forall|k: int|
            1 <= k <= w.len() ==> w.events[k - 1].prev == Some(#[trigger] w.id(k - 1)),
    ensures
        fits(OkxRule, w),
        (forall|k: int|
            1 <= k <= w.len() ==> w.events[k - 1].first == #[trigger] w.id(k - 1) + 1) ==> opens(
            OkxRule,
            w,
        ),
{
    let r = OkxRule;
    assert forall|k: int, i: int| 1 <= k <= w.len() && 0 <= i <= w.len() implies #[trigger] w.chain_at(
        r, k, i) == (if k <= i {
        Class::Stale
    } else if k == i + 1 {
        Class::Next
    } else {
        Class::Ahead
    }) by {
        assert(w.events[k - 1].prev == Some(w.id(k - 1)));
        lemma_ids_grow(w, k - 1, k);
        if k < i {
            lemma_ids_grow(w, k, i);
        } else if i < k {
            lemma_ids_grow(w, i, k);
            if i < k - 1 {
                lemma_ids_grow(w, i, k - 1);
            }
        }
    }
    assert forall|k: int, j: int|
        #![trigger w.bridge_at(r, k, j)]
        1 <= k <= w.len() && 0 <= j <= w.len() implies {
        &&& k < j ==> w.bridge_at(r, k, j) == Class::Stale
        &&& k == j ==> w.bridge_at(r, k, j) == Class::Stale || w.bridge_at(r, k, j) == Class::Next
        &&& k == j + 1 ==> w.bridge_at(r, k, j) == Class::Next || w.bridge_at(r, k, j)
            == Class::Ahead
        &&& k > j + 1 ==> w.bridge_at(r, k, j) == Class::Ahead
    } by {
        assert(w.events[k - 1].prev == Some(w.id(k - 1)));
        if k < j {
            lemma_ids_grow(w, k, j);
        } else if j < k {
            lemma_ids_grow(w, j, k);
            if j < k - 1 {
                lemma_ids_grow(w, j, k - 1);
            }
        }
    }
    if forall|k: int|
        1 <= k <= w.len() ==> w.events[k - 1].first == #[trigger] w.id(k - 1) + 1 {
        assert forall|k: int, j: int|
            #![trigger w.bridge_at(r, k, j)]
            1 <= k <= w.len() && 0 <= j <= w.len() && (w.bridge_at(r, k, j) == Class::Stale
                || w.bridge_at(r, k, j) == Class::Next) implies !r.too_old(
            w.events[k - 1].first,
            w.id(j),
        ) by {
            assert(w.id(k - 1) < w.events[k - 1].first && w.events[k - 1].first <= w.events[k - 1].last);
        }
    }
}

/// Fixing one level changes the lookup of that level only.
pub proof fn lemma_set_find(s: Seq<(Px, Qty)>, px: Px, qty: Qty)
    requires
        sorted(s),
    ensures
        sorted(ladder_set(s, px, qty)),
        forall|q: Px|
            #![trigger find(ladder_set(s, px, qty), q)]
            find(ladder_set(s, px, qty), q) == (if q == px {
                if qty.0 == 0 {
                    None
                } else {
                    Some(qty)
                }
            } else {
                find(s, q)
            }),
{
    if qty.0 == 0 {
        lemma_del(s, px);
    } else {
        lemma_put(s, px, qty);
    }
}

/// What the levels of an event say of a price: nothing, or its last quantity.
spec fn said(levels: Seq<Level>, q: Px) -> Option<Option<Qty>>
    decreases levels.len(),
{
    if levels.len() == 0 {
        None
    } else if levels.last().px == q {
        Some(
            if levels.last().qty.0 == 0 {
                None
            } else {
                Some(levels.last().qty)
            },
        )
    } else {
        said(levels.drop_last(), q)
    }
}

proof fn lemma_set_all(s: Seq<(Px, Qty)>, levels: Seq<Level>)
    requires
        sorted(s),
    ensures
        sorted(set_all(s, levels)),
        forall|q: Px|
            #![trigger find(set_all(s, levels), q)]
            find(set_all(s, levels), q) == (match said(levels, q) {
                Some(v) => v,
                None => find(s, q),
            }),
    decreases levels.len(),
{
    if levels.len() > 0 {
        lemma_set_all(s, levels.drop_last());
        lemma_set_find(
            set_all(s, levels.drop_last()),
            levels.last().px,
            levels.last().qty,
        );
    }
}

/// Absolute quantities are idempotent: applying an event again changes nothing.
pub proof fn law_event_idempotent(s: Seq<(Px, Qty)>, levels: Seq<Level>)
    requires
        sorted(s),
    ensures
        set_all(set_all(s, levels), levels) == set_all(s, levels),
{
    lemma_set_all(s, levels);
    lemma_set_all(set_all(s, levels), levels);
    assert forall|q: Px| #[trigger] find(set_all(set_all(s, levels), levels), q) == find(
        set_all(s, levels),
        q,
    ) by {
        assert(find(set_all(s, levels), q) == (match said(levels, q) {
            Some(v) => v,
            None => find(s, q),
        }));
    }
    lemma_same_finds(set_all(set_all(s, levels), levels), set_all(s, levels));
}

proof fn lemma_ladders_sorted(w: Exchange, k: int)
    requires
        w.wf(),
        0 <= k <= w.len(),
    ensures
        sorted(w.bids(k)),
        sorted(w.asks(k)),
    decreases k,
{
    if k > 0 {
        lemma_ladders_sorted(w, k - 1);
        lemma_set_all(w.bids(k - 1), w.events[k - 1].bids);
        lemma_set_all(w.asks(k - 1), w.events[k - 1].asks);
    }
}

/// The levels of one side change that side as `set_all` says, and nothing else.
proof fn lemma_levels<O: BookObserver>(
    book: BookState,
    obs: O::State,
    side: Side,
    levels: Seq<Level>,
    ts: u64,
)
    ensures
        levels_next::<O>(book, obs, side, levels, ts).0 == (match side {
            Side::Bid => BookState { bids: set_all(book.bids, levels), ..book },
            Side::Ask => BookState { asks: set_all(book.asks, levels), ..book },
        }),
    decreases levels.len(),
{
    if levels.len() > 0 {
        lemma_levels::<O>(book, obs, side, levels.drop_last(), ts);
    }
}

/// The book is the one of the exchange after `k` events.
pub open spec fn at<R, S>(w: Exchange, s: SyncState<R, S>, k: int) -> bool {
    &&& 0 <= k <= w.len()
    &&& s.last == w.id(k)
    &&& s.book.bids == w.bids(k)
    &&& s.book.asks == w.asks(k)
}

/// Applying the next event, or the last one again, follows the exchange.
pub proof fn lemma_absorb<R, O: BookObserver>(
    w: Exchange,
    p: Progress<R, O::State>,
    d: DepthDiff,
    i: int,
    k: int,
)
    requires
        w.wf(),
        at(w, p.s, i),
        w.delivers(k, d),
        k == i + 1 || k == i,
    ensures
        at(w, absorb_diff::<R, O>(p, d).s, k),
        absorb_diff::<R, O>(p, d).s.rule == p.s.rule,
        absorb_diff::<R, O>(p, d).s.cfg == p.s.cfg,
{
    let (b1, o1) = levels_next::<O>(p.s.book, p.s.obs, Side::Bid, d.bids@, d.exch_ts_ms);
    lemma_levels::<O>(p.s.book, p.s.obs, Side::Bid, d.bids@, d.exch_ts_ms);
    lemma_levels::<O>(b1, o1, Side::Ask, d.asks@, d.exch_ts_ms);
    if k == i {
        lemma_ladders_sorted(w, k - 1);
        law_event_idempotent(w.bids(k - 1), w.events[k - 1].bids);
        law_event_idempotent(w.asks(k - 1), w.events[k - 1].asks);
    }
}

/// While live, the book is the one of the exchange.
pub open spec fn faithful<R, S>(w: Exchange, s: SyncState<R, S>) -> bool {
    s.phase == Phase::Live ==> exists|k: int| #[trigger] at(w, s, k)
}

/// The held snapshot, if any, is one of the exchange.
pub open spec fn held_true<R, S>(w: Exchange, s: SyncState<R, S>) -> bool {
    s.held matches Some(snap) ==> exists|j: int| #[trigger] w.shows(j, snap)
}

proof fn lemma_apply_true<R, O: BookObserver>(
    w: Exchange,
    p: Progress<R, O::State>,
    d: DepthDiff,
    i: int,
    k: int,
    now_ms: u64,
)
    requires
        w.wf(),
        at(w, p.s, i),
        w.delivers(k, d),
        k == i + 1 || k == i,
    ensures
        ({
            let q = apply_next::<R, O>(p, d, now_ms);
            let crossed = cross_resyncs(absorb_diff::<R, O>(p, d).s);
            &&& q.s.rule == p.s.rule
            &&& crossed ==> q.s.phase == Phase::Syncing && q.s.held is None
            &&& !crossed ==> at(w, q.s, k) && q.s.phase == p.s.phase && q.s.held == p.s.held
                && q.s.pending == p.s.pending && q.s.buffer == p.s.buffer
        }),
{
    lemma_absorb::<R, O>(w, p, d, i, k);
}

proof fn lemma_drain_true<R: SeqRule, O: BookObserver>(
    w: Exchange,
    p: Progress<R, O::State>,
    i: int,
    now_ms: u64,
)
    requires
        w.wf(),
        fits(p.s.rule, w),
        at(w, p.s, i),
        stored(p.s, own_key()),
        stored(p.s, w.reports()),
        p.s.held is None,
    ensures
        ({
            let q = drain_next::<R, O>(p, now_ms);
            &&& q.s.rule == p.s.rule
            &&& faithful(w, q.s)
            &&& q.s.held is None
        }),
    decreases p.s.pending.len(),
{
    if p.s.pending.len() > 0 {
        let (key, (d, t)) = p.s.pending[0];
        let rest = SyncState { pending: p.s.pending.skip(1), ..p.s };
        assert(own_key()(p.s.pending[0].0, p.s.pending[0].1.0));
        assert(w.reports()(p.s.pending[0].0, p.s.pending[0].1.0));
        let k = choose|k: int| #[trigger] w.delivers(k, d);
        assert(w.chain_at(p.s.rule, k, i) == p.s.rule.chains(
            key.0,
            key.1,
            d.prev_last_id,
            p.s.last,
        ));
        lemma_skip_pending(p.s, rest, own_key());
        lemma_skip_pending(p.s, rest, w.reports());
        match p.s.rule.chains(key.0, key.1, d.prev_last_id, p.s.last) {
            Class::Stale => {
                let q = Progress { s: stale_next(rest, d.rx.line), ..p };
                assert(at(w, q.s, i));
                lemma_drain_true::<R, O>(w, q, i, now_ms);
            },
            Class::Next => {
                let q = Progress {
                    s: SyncState {
                        stats: StatsView {
                            reordered_applied: inc(rest.stats.reordered_applied),
                            ..rest.stats
                        },
                        ..rest
                    },
                    ..p
                };
                assert(at(w, q.s, i));
                lemma_apply_true::<R, O>(w, q, d, i, k, now_ms);
                let a = apply_next::<R, O>(q, d, now_ms);
                if !cross_resyncs(absorb_diff::<R, O>(q, d).s) {
                    lemma_drain_true::<R, O>(w, a, k, now_ms);
                }
            },
            Class::Ahead => {},
            Class::Invalid => {},
        }
    }
}

pub proof fn lemma_skip_pending<R, S>(
    s: SyncState<R, S>,
    t: SyncState<R, S>,
    f: spec_fn((u64, u64), DepthDiff) -> bool,
)
    requires
        stored(s, f),
        s.pending.len() > 0,
        t.pending == s.pending.skip(1),
        t.buffer == s.buffer,
    ensures
        stored(t, f),
{
    assert forall|i: int| 0 <= i < t.pending.len() implies f(
        (#[trigger] t.pending[i]).0,
        t.pending[i].1.0,
    ) by {
        assert(t.pending[i] == s.pending[i + 1]);
    }
}

proof fn lemma_live_true<R: SeqRule, O: BookObserver>(
    w: Exchange,
    p: Progress<R, O::State>,
    d: DepthDiff,
    now_ms: u64,
)
    requires
        w.wf(),
        fits(p.s.rule, w),
        p.s.phase == Phase::Live,
        faithful(w, p.s),
        stored(p.s, own_key()),
        stored(p.s, w.reports()),
        p.s.held is None,
        exists|k: int| #[trigger] w.delivers(k, d),
    ensures
        ({
            let q = live_next::<R, O>(p, d, now_ms);
            &&& q.s.rule == p.s.rule
            &&& faithful(w, q.s)
            &&& q.s.held is None
        }),
{
    let i = choose|i: int| #[trigger] at(w, p.s, i);
    let k = choose|k: int| #[trigger] w.delivers(k, d);
    let q = live_next::<R, O>(p, d, now_ms);
    assert(w.chain_at(p.s.rule, k, i) == p.s.rule.chains(
        d.first_id,
        d.last_id,
        d.prev_last_id,
        p.s.last,
    ));
    match p.s.rule.chains(d.first_id, d.last_id, d.prev_last_id, p.s.last) {
        Class::Next => {
            lemma_apply_true::<R, O>(w, p, d, i, k, now_ms);
            let a = apply_next::<R, O>(p, d, now_ms);
            if !cross_resyncs(absorb_diff::<R, O>(p, d).s) {
                lemma_drain_true::<R, O>(w, a, k, now_ms);
            }
        },
        Class::Stale => {
            assert(at(w, q.s, i));
        },
        Class::Ahead => {
            if q.s.phase == Phase::Live {
                assert(at(w, q.s, i));
            }
        },
        Class::Invalid => {},
    }
}

proof fn lemma_feed_true<R: SeqRule, O: BookObserver>(
    w: Exchange,
    p: Progress<R, O::State>,
    rest: Seq<((u64, u64), DepthDiff)>,
    now_ms: u64,
)
    requires
        w.wf(),
        fits(p.s.rule, w),
        faithful(w, p.s),
        p.s.held is None,
        feedable(p.s, rest, own_key()),
        feedable(p.s, rest, w.reports()),
    ensures
        ({
            let q = feed_next::<R, O>(p, rest, now_ms);
            &&& q.s.rule == p.s.rule
            &&& faithful(w, q.s)
            &&& q.s.held is None
        }),
    decreases rest.len(),
{
    if rest.len() > 0 {
        let (key, d) = rest[0];
        let q = fed::<R, O>(p, key, d, now_ms);
        lemma_feed_step::<R, O>(p, rest, now_ms, own_key());
        lemma_feed_step::<R, O>(p, rest, now_ms, w.reports());
        assert(w.reports()(rest[0].0, rest[0].1));
        if p.s.phase == Phase::Live {
            lemma_live_true::<R, O>(w, p, d, now_ms);
        }
        lemma_feed_true::<R, O>(w, q, rest.skip(1), now_ms);
    }
}

pub proof fn lemma_rebuilt_true<R: SeqRule, O: BookObserver>(
    w: Exchange,
    p: Progress<R, O::State>,
    j: int,
    k: int,
    now_ms: u64,
)
    requires
        w.wf(),
        fits(p.s.rule, w),
        p.s.held is Some,
        w.shows(j, p.s.held->0),
        p.s.buffer.len() > 0,
        w.delivers(k, p.s.buffer[0].1),
        p.s.buffer[0].0 == (p.s.buffer[0].1.first_id, p.s.buffer[0].1.last_id),
        p.s.rule.bridges(
            p.s.buffer[0].0.0,
            p.s.buffer[0].0.1,
            p.s.buffer[0].1.prev_last_id,
            (p.s.held->0).last_update_id,
        ) == Class::Next,
    ensures
        k == j || k == j + 1,
        at(w, rebuilt::<R, O>(p).s, j),
        ({
            let q = rebuilt::<R, O>(p);
            let a = apply_next::<R, O>(q, p.s.buffer[0].1, now_ms);
            let b = bridged::<R, O>(p, now_ms);
            let crossed = cross_resyncs(absorb_diff::<R, O>(q, p.s.buffer[0].1).s);
            &&& a.s.rule == p.s.rule
            &&& a.s.held is None
            &&& b.s.rule == p.s.rule
            &&& crossed ==> a.s.phase == Phase::Syncing
            &&& !crossed ==> b.s.phase == Phase::Live && at(w, b.s, k) && b.s.held is None
                && b.s.pending.len() == 0 && b.s.buffer.len() == 0
        }),
{
    let first = p.s.buffer[0].1;
    assert(w.bridge_at(p.s.rule, k, j) == Class::Next);
    let q = rebuilt::<R, O>(p);
    lemma_apply_true::<R, O>(w, q, first, j, k, now_ms);
}

proof fn lemma_install_true<R: SeqRule, O: BookObserver>(
    w: Exchange,
    p: Progress<R, O::State>,
    now_ms: u64,
)
    requires
        w.wf(),
        fits(p.s.rule, w),
        p.s.phase == Phase::Syncing,
        tidy(p.s, w.reports()),
        p.s.held is Some,
        held_true(w, p.s),
        p.s.buffer.len() > 0,
        p.s.rule.bridges(
            p.s.buffer[0].0.0,
            p.s.buffer[0].0.1,
            p.s.buffer[0].1.prev_last_id,
            (p.s.held->0).last_update_id,
        ) == Class::Next,
    ensures
        ({
            let q = install_next::<R, O>(p, now_ms);
            &&& q.s.rule == p.s.rule
            &&& faithful(w, q.s)
            &&& q.s.held is None
        }),
{
    let j = choose|j: int| #[trigger] w.shows(j, p.s.held->0);
    assert(w.reports()(p.s.buffer[0].0, p.s.buffer[0].1));
    assert(own_key()(p.s.buffer[0].0, p.s.buffer[0].1));
    let k = choose|k: int| #[trigger] w.delivers(k, p.s.buffer[0].1);
    lemma_rebuilt_true::<R, O>(w, p, j, k, now_ms);
    lemma_bridged::<R, O>(p, now_ms, own_key());
    lemma_bridged::<R, O>(p, now_ms, w.reports());
    let q = rebuilt::<R, O>(p);
    if !cross_resyncs(absorb_diff::<R, O>(q, p.s.buffer[0].1).s) {
        let b = bridged::<R, O>(p, now_ms);
        assert(at(w, b.s, k));
        lemma_feed_true::<R, O>(w, b, p.s.buffer.skip(1), now_ms);
    }
}

proof fn lemma_seek_true<R: SeqRule, O: BookObserver>(
    w: Exchange,
    p: Progress<R, O::State>,
    now_ms: u64,
)
    requires
        w.wf(),
        fits(p.s.rule, w),
        p.s.phase == Phase::Syncing,
        tidy(p.s, w.reports()),
        p.s.held is Some,
        held_true(w, p.s),
    ensures
        ({
            let q = seek_next::<R, O>(p, now_ms);
            &&& q.s.rule == p.s.rule
            &&& faithful(w, q.s)
            &&& held_true(w, q.s)
            &&& q.s.phase == Phase::Live ==> q.s.held is None
        }),
    decreases p.s.buffer.len(),
{
    if p.s.buffer.len() > 0 {
        let (key, d) = p.s.buffer[0];
        let snap_id = (p.s.held->0).last_update_id;
        match p.s.rule.bridges(key.0, key.1, d.prev_last_id, snap_id) {
            Class::Stale => {
                let q = Progress {
                    s: SyncState {
                        buffer: p.s.buffer.skip(1),
                        stats: StatsView { pre_snapshot: inc(p.s.stats.pre_snapshot), ..p.s.stats },
                        ..p.s
                    },
                    ..p
                };
                crate::conservation::lemma_skip_sorted(p.s.buffer);
                lemma_skip_stored(p.s, q.s, own_key());
                lemma_skip_stored(p.s, q.s, w.reports());
                lemma_seek_true::<R, O>(w, q, now_ms);
            },
            Class::Next => {
                lemma_install_true::<R, O>(w, p, now_ms);
            },
            Class::Ahead => {},
            Class::Invalid => {},
        }
    }
}

/// What holds after every input: the rule is the same, what is stored comes from
/// the exchange and, while live, so does the book.
pub open spec fn sound<R: SeqRule, S>(w: Exchange, s: SyncState<R, S>) -> bool {
    &&& tidy(s, w.reports())
    &&& held_true(w, s)
    &&& faithful(w, s)
    &&& s.phase == Phase::Live ==> s.held is None
}

/// The input comes from the exchange (or from the clock).
pub open spec fn from_exchange(w: Exchange, i: Input) -> bool {
    match i {
        Input::Diff(d, t) => exists|k: int| #[trigger] w.delivers(k, d),
        Input::Snapshot(snap, t) => exists|j: int| #[trigger] w.shows(j, snap),
        _ => true,
    }
}

/// One input from the exchange keeps the book sound.
pub proof fn lemma_take_sound<R: SeqRule, O: BookObserver>(
    w: Exchange,
    s: SyncState<R, O::State>,
    i: Input,
)
    requires
        w.wf(),
        fits(s.rule, w),
        sound(w, s),
        from_exchange(w, i),
    ensures
        sound(w, take::<R, O>(s, i).s),
        take::<R, O>(s, i).s.rule == s.rule,
{
    lemma_take::<R, O>(s, i, w.reports());
    reveal(take);
    match i {
        Input::Diff(d, t) => {
            lemma_diff_sound::<R, O>(w, s, d, t);
        },
        Input::Snapshot(snap, t) => {
            lemma_snapshot_sound::<R, O>(w, s, snap, t);
        },
        Input::Tick(t) => {
            let q = on_tick_next::<R, O>(s, t);
            if q.s.phase == Phase::Live {
                let k = choose|k: int| #[trigger] at(w, s, k);
                assert(at(w, q.s, k));
            }
        },
        Input::Force(t) => {},
    }
}

proof fn lemma_diff_sound<R: SeqRule, O: BookObserver>(
    w: Exchange,
    s: SyncState<R, O::State>,
    d: DepthDiff,
    now_ms: u64,
)
    requires
        w.wf(),
        fits(s.rule, w),
        sound(w, s),
        exists|k: int| #[trigger] w.delivers(k, d),
    ensures
        ({
            let q = on_diff_next::<R, O>(s, d, now_ms).s;
            &&& q.rule == s.rule
            &&& held_true(w, q)
            &&& faithful(w, q)
            &&& q.phase == Phase::Live ==> q.held is None
        }),
{
    let s1 = SyncState { stats: StatsView { diffs_rx: inc(s.stats.diffs_rx), ..s.stats }, ..s };
    assert(own_key()((d.first_id, d.last_id), d));
    assert(w.reports()((d.first_id, d.last_id), d));
    match s1.phase {
        Phase::Live => {
            let k = choose|k: int| #[trigger] at(w, s, k);
            assert(at(w, s1, k));
            lemma_live_true::<R, O>(w, Progress { s: s1, st: Step::none() }, d, now_ms);
        },
        Phase::Syncing => {
            let key = (d.first_id, d.last_id);
            if !holds(s1.buffer, key) {
                let s2 = SyncState { buffer: put(s1.buffer, key, d), ..s1 };
                lemma_put(s1.buffer, key, d);
                crate::conservation::lemma_put_entries(s1.buffer, key, d);
                lemma_trimmed(s2, w.reports());
                lemma_trimmed(s2, own_key());
                lemma_trimmed_rule(s2);
            }
            let p = Progress { s: gathered(s1, d), st: Step::none() };
            if p.s.held is Some {
                lemma_seek_true::<R, O>(w, p, now_ms);
            }
        },
    }
}

pub proof fn lemma_trimmed_rule<R, S>(s: SyncState<R, S>)
    ensures
        trimmed(s).rule == s.rule,
        trimmed(s).cfg == s.cfg,
        trimmed(s).snapshot_req_at == s.snapshot_req_at,
    decreases s.buffer.len(),
{
    if s.buffer.len() > s.cfg.max_buffer {
        lemma_trimmed_rule(
            SyncState {
                buffer: s.buffer.skip(1),
                stats: StatsView { buffer_dropped: inc(s.stats.buffer_dropped), ..s.stats },
                ..s
            },
        );
    }
}

proof fn lemma_snapshot_sound<R: SeqRule, O: BookObserver>(
    w: Exchange,
    s: SyncState<R, O::State>,
    snap: DepthSnapshot,
    now_ms: u64,
)
    requires
        w.wf(),
        fits(s.rule, w),
        sound(w, s),
        exists|j: int| #[trigger] w.shows(j, snap),
    ensures
        ({
            let q = on_snapshot_next::<R, O>(s, snap, now_ms).s;
            &&& q.rule == s.rule
            &&& held_true(w, q)
            &&& faithful(w, q)
            &&& q.phase == Phase::Live ==> q.held is None
        }),
{
    let s1 = SyncState {
        held: Some(snap),
        snapshot_req_at: None,
        stats: StatsView { snapshots_rx: inc(s.stats.snapshots_rx), ..s.stats },
        ..s
    };
    if s.phase == Phase::Syncing {
        let p = Progress { s: s1, st: Step::none() };
        lemma_seek_true::<R, O>(w, p, now_ms);
    } else {
        let k = choose|k: int| #[trigger] at(w, s, k);
        assert(at(w, on_snapshot_next::<R, O>(s, snap, now_ms).s, k));
    }
}

/// Never silently wrong: whatever the lines lose, repeat or reorder, and whatever
/// snapshots come, while the phase is `Live` the book is the one of the exchange
/// at the last update id applied.
pub proof fn law_never_silently_wrong<R: SeqRule, O: BookObserver>(
    w: Exchange,
    rule: R,
    cfg: SyncConfig,
    obs: O::State,
    inputs: Seq<Input>,
)
    requires
        w.wf(),
        fits(rule, w),
        forall|i: int| 0 <= i < inputs.len() ==> from_exchange(w, #[trigger] inputs[i]),
    ensures
        ({
            let s = run::<R, O>(start(rule, cfg, obs), inputs);
            &&& sound(w, s)
            &&& s.rule == rule
            &&& s.phase == Phase::Live ==> exists|k: int| #[trigger] at(w, s, k)
        }),
    decreases inputs.len(),
{
    if inputs.len() > 0 {
        let t = inputs.drop_last();
        assert forall|i: int| 0 <= i < t.len() implies from_exchange(w, #[trigger] t[i]) by {
            assert(t[i] == inputs[i]);
        }
        law_never_silently_wrong::<R, O>(w, rule, cfg, obs, t);
        let s = run::<R, O>(start(rule, cfg, obs), t);
        assert(from_exchange(w, inputs[inputs.len() - 1]));
        lemma_take_sound::<R, O>(w, s, inputs.last());
    }
}

/// [`law_never_silently_wrong`] on a spot market of Binance, whose ids are contiguous.
pub proof fn law_spot_never_silently_wrong<O: BookObserver>(
    w: Exchange,
    cfg: SyncConfig,
    obs: O::State,
    inputs: Seq<Input>,
)
    requires
        w.wf(),
        forall|k: int| 1 <= k <= w.len() ==> w.events[k - 1].first == #[trigger] w.id(k - 1) + 1,
        forall|i: int| 0 <= i < inputs.len() ==> from_exchange(w, #[trigger] inputs[i]),
    ensures
        ({
            let s = run::<BinanceSpotRule, O>(start(BinanceSpotRule, cfg, obs), inputs);
            s.phase == Phase::Live ==> exists|k: int| #[trigger] at(w, s, k)
        }),
{
    law_spot_fits(w);
    law_never_silently_wrong::<BinanceSpotRule, O>(w, BinanceSpotRule, cfg, obs, inputs);
}

/// [`law_never_silently_wrong`] on a futures market of Binance, whose diffs name the id of the
/// one before.
pub proof fn law_futures_never_silently_wrong<O: BookObserver>(
    w: Exchange,
    cfg: SyncConfig,
    obs: O::State,
    inputs: Seq<Input>,
)
    requires
        w.wf(),
        forall|k: int|
            1 <= k <= w.len() ==> w.events[k - 1].prev == Some(#[trigger] w.id(k - 1)),
        forall|i: int| 0 <= i < inputs.len() ==> from_exchange(w, #[trigger] inputs[i]),
    ensures
        ({
            let s = run::<BinanceFuturesRule, O>(start(BinanceFuturesRule, cfg, obs), inputs);
            s.phase == Phase::Live ==> exists|k: int| #[trigger] at(w, s, k)
        }),
{
    law_futures_fits(w);
    law_never_silently_wrong::<BinanceFuturesRule, O>(w, BinanceFuturesRule, cfg, obs, inputs);
}

} // verus!

//! Arbitration of lines: an event lost on one line is recovered from another, and one
//! lost on all of them from a snapshot.

use crate::arbitration::{
    at, fits, from_exchange, law_futures_fits, law_spot_fits, lemma_absorb, lemma_ids_grow,
    lemma_rebuilt_true, lemma_skip_pending, lemma_take_sound, opens, sound, Exchange,
};
use crate::conservation::{
    bridged, fed, feedable, lemma_absorbed, lemma_bridged, lemma_feed_step,
    lemma_put_entries, lemma_skip_sorted, lemma_skip_stored, lemma_take, lemma_trimmed, orderly,
    own_key, run, stored, take, tidy, Input,
};
use crate::event::{DepthDiff, DepthSnapshot};
use crate::observer::BookObserver;
use crate::ordmap::{
    del, find, holds, key_lt, lemma_del, lemma_entry_found, lemma_put, put, rank, sorted,
};
use crate::rule::{BinanceFuturesRule, BinanceSpotRule, Class, SeqRule};
use crate::sync::{
    absorb_diff, apply_next, cross_resyncs, drain_next, feed_next, gathered, inc, install_next,
    live_next, oldest, on_diff_next, on_snapshot_next, on_tick_next, rebuilt, seek_next, stale_next,
    start, trimmed, try_install_next, unbridgeable_next, usual_limits, Phase, Progress,
    ResyncReason, StatsView, Step, SyncConfig, SyncState,
};
use crate::num::clamp_u64;
use vstd::prelude::*;

verus! {

/// The ids under which event `k` is stored.
pub open spec fn key_of(w: Exchange, k: int) -> (u64, u64) {
    (w.events[k - 1].first, w.events[k - 1].last)
}

/// No book of the exchange is crossed.
pub open spec fn calm(w: Exchange) -> bool {
    forall|k: int|
        #![trigger w.bids(k)]
        0 <= k <= w.len() && w.bids(k).len() > 0 && w.asks(k).len() > 0 ==> w.bids(k).last().0.0
            < w.asks(k)[0].0.0
}

/// How the events reach the lines.
pub struct Feed {
    /// When each event was published, ms.
    pub sent: spec_fn(int) -> int,
    /// The longest wait until an event has come by some line, ms.
    pub delay: int,
    /// The events up to this one are not owed.
    pub from: int,
    /// The events in hand before the first input.
    pub base: spec_fn(int) -> bool,
}

/// The diffs that report an event of `kept`.
spec fn from_kept(w: Exchange, kept: spec_fn(int) -> bool) -> spec_fn(
    (u64, u64),
    DepthDiff,
) -> bool {
    |key: (u64, u64), d: DepthDiff| exists|k: int| #[trigger] w.delivers(k, d) && kept(k)
}

/// No event that came is more than `cap` events after one that is owed and has not.
spec fn near(w: Exchange, f: Feed, kept: spec_fn(int) -> bool, cap: int) -> bool {
    forall|a: int, x: int|
        #![trigger kept(a), kept(x)]
        1 <= a && f.from < a < x <= w.len() && !kept(a) && kept(x) ==> x - a <= cap
}

proof fn lemma_key_order(w: Exchange, a: int, b: int)
    requires
        w.wf(),
        1 <= a < b <= w.len(),
    ensures
        key_lt(key_of(w, a), key_of(w, b)),
{
    lemma_ids_grow(w, a, b);
    assert(w.id(a - 1) < w.events[a - 1].first);
    assert(w.events[a - 1].first <= w.events[a - 1].last);
}

/// A diff reports one event.
proof fn lemma_same_event(w: Exchange, a: int, b: int, d: DepthDiff)
    requires
        w.wf(),
        w.delivers(a, d),
        w.delivers(b, d),
    ensures
        a == b,
{
    if a < b {
        lemma_key_order(w, a, b);
    } else if b < a {
        lemma_key_order(w, b, a);
    }
}

/// Stored diffs that report events after `lo` are different events, in order.
proof fn lemma_count<V>(
    w: Exchange,
    s: Seq<((u64, u64), V)>,
    event: spec_fn(V) -> DepthDiff,
    lo: int,
    n: int,
)
    requires
        w.wf(),
        sorted(s),
        0 < n <= s.len(),
        forall|i: int|
            0 <= i < s.len() ==> (#[trigger] s[i]).0 == (
                event(s[i].1).first_id,
                event(s[i].1).last_id,
            ) && (exists|k: int| lo < k && #[trigger] w.delivers(k, event(s[i].1))),
    ensures
        exists|k: int| lo + n <= k && #[trigger] w.delivers(k, event(s[n - 1].1)),
    decreases n,
{
    let e = s[n - 1];
    let k = choose|k: int| lo < k && #[trigger] w.delivers(k, event(e.1));
    if n > 1 {
        lemma_count(w, s, event, lo, n - 1);
        let b = s[n - 2];
        let kb = choose|kb: int| lo + n - 1 <= kb && #[trigger] w.delivers(kb, event(b.1));
        assert(key_lt(s[n - 2].0, s[n - 1].0));
        if k <= kb {
            if k < kb {
                lemma_key_order(w, k, kb);
            }
            assert(e.0 == key_of(w, k));
            assert(b.0 == key_of(w, kb));
            assert(false);
        }
    }
    assert(w.delivers(k, event(e.1)));
}

/// The diff reports an event after event `k`.
spec fn later(w: Exchange, d: DepthDiff, k: int) -> bool {
    exists|x: int| k < x && #[trigger] w.delivers(x, d)
}

/// Every held diff is after the event that the book waits for.
spec fn beyond<R, S>(w: Exchange, s: SyncState<R, S>, k: int) -> bool {
    forall|m: int| 0 <= m < s.pending.len() ==> later(w, (#[trigger] s.pending[m]).1.0, k + 1)
}

/// Every held diff is at most `cap` events after the one that the book waits for.
spec fn within<R, S>(w: Exchange, s: SyncState<R, S>, k: int, cap: int) -> bool {
    forall|m: int, x: int|
        0 <= m < s.pending.len() && #[trigger] w.delivers(x, (#[trigger] s.pending[m]).1.0)
            ==> x - (k + 1) <= cap
}

/// No held diff is marked with a time before its event was published.
spec fn stamped<R, S>(w: Exchange, s: SyncState<R, S>, f: Feed) -> bool {
    forall|m: int, x: int|
        0 <= m < s.pending.len() && #[trigger] w.delivers(x, (#[trigger] s.pending[m]).1.0)
            ==> (f.sent)(x) <= s.pending[m].1.1
}

proof fn lemma_pending_fits<R, S>(w: Exchange, s: SyncState<R, S>, k: int, cap: int)
    requires
        w.wf(),
        sorted(s.pending),
        stored(s, own_key()),
        beyond(w, s, k),
        within(w, s, k, cap),
        cap >= 0,
    ensures
        s.pending.len() <= cap,
{
    let event = |v: (DepthDiff, u64)| v.0;
    let n = s.pending.len() as int;
    assert forall|i: int| 0 <= i < n implies (#[trigger] s.pending[i]).0 == (
        event(s.pending[i].1).first_id,
        event(s.pending[i].1).last_id,
    ) && (exists|x: int| k + 1 < x && #[trigger] w.delivers(x, event(s.pending[i].1))) by {
        assert(own_key()(s.pending[i].0, s.pending[i].1.0));
        assert(later(w, s.pending[i].1.0, k + 1));
        let x = choose|x: int| k + 1 < x && #[trigger] w.delivers(x, s.pending[i].1.0);
        assert(w.delivers(x, event(s.pending[i].1)));
    }
    if n > 0 {
        lemma_count(w, s.pending, event, k + 1, n);
        let x = choose|x: int|
            k + 1 + n <= x && #[trigger] w.delivers(x, event(s.pending[n - 1].1));
        assert(w.delivers(x, s.pending[n - 1].1.0));
    }
}

/// A buffer of events of `kept` that are after event `lo` holds one that is as far
/// after it as the buffer is long.
proof fn lemma_buffer_span<R, S>(
    w: Exchange,
    s: SyncState<R, S>,
    kept: spec_fn(int) -> bool,
    lo: int,
) -> (x: int)
    requires
        w.wf(),
        sorted(s.buffer),
        stored(s, own_key()),
        stored(s, from_kept(w, kept)),
        s.buffer.len() > 0,
        forall|m: int| 0 <= m < s.buffer.len() ==> later(w, (#[trigger] s.buffer[m]).1, lo),
    ensures
        1 <= x <= w.len(),
        kept(x),
        lo + s.buffer.len() <= x,
{
    let event = |v: DepthDiff| v;
    let n = s.buffer.len() as int;
    assert forall|i: int| 0 <= i < n implies (#[trigger] s.buffer[i]).0 == (
        event(s.buffer[i].1).first_id,
        event(s.buffer[i].1).last_id,
    ) && (exists|x: int| lo < x && #[trigger] w.delivers(x, event(s.buffer[i].1))) by {
        assert(own_key()(s.buffer[i].0, s.buffer[i].1));
        assert(later(w, s.buffer[i].1, lo));
        let x = choose|x: int| lo < x && #[trigger] w.delivers(x, s.buffer[i].1);
        assert(w.delivers(x, event(s.buffer[i].1)));
    }
    lemma_count(w, s.buffer, event, lo, n);
    let x = choose|x: int| lo + n <= x && #[trigger] w.delivers(x, event(s.buffer[n - 1].1));
    assert(from_kept(w, kept)(s.buffer[n - 1].0, s.buffer[n - 1].1));
    let y = choose|y: int| #[trigger] w.delivers(y, s.buffer[n - 1].1) && kept(y);
    lemma_same_event(w, x, y, s.buffer[n - 1].1);
    x
}

/// Dropping the first entry loses its key only.
proof fn lemma_skip_holds<V>(s: Seq<((u64, u64), V)>, k: (u64, u64))
    requires
        sorted(s),
        s.len() > 0,
    ensures
        holds(s.skip(1), k) == (holds(s, k) && s[0].0 != k),
{
    lemma_entry_found(s, 0);
    lemma_del(s, s[0].0);
    assert(del(s, s[0].0) =~= s.skip(1));
    assert(find(del(s, s[0].0), k) == (if k == s[0].0 {
        None
    } else {
        find(s, k)
    }));
}

/// The next event after the book is not among the held ones.
spec fn gap<R, S>(w: Exchange, s: SyncState<R, S>, k: int) -> bool {
    k < w.len() ==> !holds(s.pending, key_of(w, k + 1))
}

/// No resync happened between the two.
spec fn calm_step<R, S>(p: Progress<R, S>, q: Progress<R, S>) -> bool {
    &&& q.st.resync == p.st.resync
    &&& q.s.stats.resyncs() == p.s.stats.resyncs()
    &&& q.s.cfg == p.s.cfg
    &&& q.s.rule == p.s.rule
}

/// The book is live after `k` events, nothing that came in `kept` is lost.
spec fn follows<R, S>(
    w: Exchange,
    s: SyncState<R, S>,
    k: int,
    f: Feed,
    kept: spec_fn(int) -> bool,
) -> bool {
    &&& s.phase == Phase::Live
    &&& s.held is None
    &&& at(w, s, k)
    &&& gap(w, s, k)
    &&& beyond(w, s, k)
    &&& stamped(w, s, f)
    &&& forall|i: int|
        1 <= i <= w.len() && #[trigger] kept(i) ==> i <= k || holds(s.pending, key_of(w, i))
}

proof fn lemma_apply_calm<R, O: BookObserver>(
    w: Exchange,
    p: Progress<R, O::State>,
    d: DepthDiff,
    i: int,
    k: int,
    now_ms: u64,
)
    requires
        w.wf(),
        calm(w),
        at(w, p.s, i),
        w.delivers(k, d),
        k == i + 1 || k == i,
    ensures
        !cross_resyncs(absorb_diff::<R, O>(p, d).s),
        apply_next::<R, O>(p, d, now_ms) == absorb_diff::<R, O>(p, d),
        at(w, absorb_diff::<R, O>(p, d).s, k),
        calm_step(p, absorb_diff::<R, O>(p, d)),
{
    lemma_absorb::<R, O>(w, p, d, i, k);
    let s = absorb_diff::<R, O>(p, d).s;
    assert(s.book.bids == w.bids(k));
    assert(!s.book.crossed());
}

/// The held event at the front of a live book.
proof fn lemma_front<R: SeqRule, S>(w: Exchange, s: SyncState<R, S>, i: int) -> (k: int)
    requires
        w.wf(),
        fits(s.rule, w),
        at(w, s, i),
        sorted(s.pending),
        stored(s, own_key()),
        stored(s, w.reports()),
        s.pending.len() > 0,
    ensures
        w.delivers(k, s.pending[0].1.0),
        s.pending[0].0 == key_of(w, k),
        s.rule.chains(
            s.pending[0].0.0,
            s.pending[0].0.1,
            s.pending[0].1.0.prev_last_id,
            s.last,
        ) == (if k <= i {
            Class::Stale
        } else if k == i + 1 {
            Class::Next
        } else {
            Class::Ahead
        }),
        k > i + 1 ==> gap(w, s, i) && beyond(w, s, i),
{
    let (key, (d, t)) = s.pending[0];
    assert(own_key()(s.pending[0].0, s.pending[0].1.0));
    assert(w.reports()(s.pending[0].0, s.pending[0].1.0));
    let k = choose|k: int| #[trigger] w.delivers(k, d);
    assert(w.chain_at(s.rule, k, i) == s.rule.chains(key.0, key.1, d.prev_last_id, s.last));
    if k > i + 1 && holds(s.pending, key_of(w, i + 1)) {
        lemma_key_order(w, i + 1, k);
        let m = rank(s.pending, key_of(w, i + 1)) as int;
        if m > 0 {
            assert(key_lt(s.pending[0].0, s.pending[m].0));
        }
    }
    if k > i + 1 {
        assert forall|m: int| 0 <= m < s.pending.len() implies later(
            w,
            (#[trigger] s.pending[m]).1.0,
            i + 1,
        ) by {
            assert(own_key()(s.pending[m].0, s.pending[m].1.0));
            assert(w.reports()(s.pending[m].0, s.pending[m].1.0));
            let x = choose|x: int| #[trigger] w.delivers(x, s.pending[m].1.0);
            if x < k {
                lemma_key_order(w, x, k);
                assert(m > 0 ==> key_lt(s.pending[0].0, s.pending[m].0));
            }
            assert(i + 1 < x && w.delivers(x, s.pending[m].1.0));
        }
    }
    k
}

proof fn lemma_drain_calm<R: SeqRule, O: BookObserver>(
    w: Exchange,
    p: Progress<R, O::State>,
    i: int,
    f: Feed,
    kept: spec_fn(int) -> bool,
    now_ms: u64,
)
    requires
        w.wf(),
        calm(w),
        fits(p.s.rule, w),
        p.s.phase == Phase::Live,
        p.s.held is None,
        at(w, p.s, i),
        stamped(w, p.s, f),
        sorted(p.s.pending),
        stored(p.s, own_key()),
        stored(p.s, w.reports()),
        forall|x: int|
            1 <= x <= w.len() && #[trigger] kept(x) ==> x <= i || holds(
                p.s.pending,
                key_of(w, x),
            ),
    ensures
        ({
            let q = drain_next::<R, O>(p, now_ms);
            &&& calm_step(p, q)
            &&& q.s.buffer == p.s.buffer
            &&& exists|k: int| i <= k && #[trigger] follows(w, q.s, k, f, kept)
        }),
    decreases p.s.pending.len(),
{
    if p.s.pending.len() == 0 {
        assert(follows(w, p.s, i, f, kept)) by {
            lemma_empty_holds(p.s.pending);
        }
    } else {
        let (key, (d, t)) = p.s.pending[0];
        let rest = SyncState { pending: p.s.pending.skip(1), ..p.s };
        let k = lemma_front(w, p.s, i);
        lemma_skip_sorted(p.s.pending);
        lemma_skip_pending(p.s, rest, own_key());
        lemma_skip_pending(p.s, rest, w.reports());
        lemma_skip_stamped(w, p.s, rest, f);
        if k <= i {
            let q = Progress { s: stale_next(rest, d.rx.line), ..p };
            assert(at(w, q.s, i));
            assert forall|x: int| 1 <= x <= w.len() && #[trigger] kept(x) implies x <= i || holds(
                q.s.pending,
                key_of(w, x),
            ) by {
                lemma_skip_holds(p.s.pending, key_of(w, x));
                if x > i && key_of(w, x) == key_of(w, k) {
                    lemma_key_order(w, k, x);
                }
            }
            lemma_drain_calm::<R, O>(w, q, i, f, kept, now_ms);
        } else if k == i + 1 {
            let q = Progress {
                s: SyncState {
                    stats: StatsView {
                        reordered_applied: inc(rest.stats.reordered_applied),
                        ..rest.stats
                    },
                    ..rest
                },
                ..p
            };
            assert(at(w, q.s, i));
            lemma_apply_calm::<R, O>(w, q, d, i, k, now_ms);
            let a = apply_next::<R, O>(q, d, now_ms);
            assert forall|x: int| 1 <= x <= w.len() && #[trigger] kept(x) implies x <= k || holds(
                a.s.pending,
                key_of(w, x),
            ) by {
                lemma_skip_holds(p.s.pending, key_of(w, x));
                if x > k && key_of(w, x) == key_of(w, k) {
                    lemma_key_order(w, k, x);
                }
            }
            lemma_drain_calm::<R, O>(w, a, k, f, kept, now_ms);
            let r = drain_next::<R, O>(a, now_ms);
            let m = choose|m: int| k <= m && #[trigger] follows(w, r.s, m, f, kept);
            assert(follows(w, r.s, m, f, kept));
        } else {
            assert(follows(w, p.s, i, f, kept));
        }
    }
}

proof fn lemma_skip_stamped<R, S>(w: Exchange, s: SyncState<R, S>, t: SyncState<R, S>, f: Feed)
    requires
        stamped(w, s, f),
        s.pending.len() > 0,
        t.pending == s.pending.skip(1),
    ensures
        stamped(w, t, f),
{
    assert forall|m: int, x: int|
        0 <= m < t.pending.len() && #[trigger] w.delivers(
            x,
            (#[trigger] t.pending[m]).1.0,
        ) implies (f.sent)(x) <= t.pending[m].1.1 by {
        assert(t.pending[m] == s.pending[m + 1]);
    }
}

proof fn lemma_empty_holds<V>(s: Seq<((u64, u64), V)>)
    requires
        s.len() == 0,
    ensures
        forall|k: (u64, u64)| !#[trigger] holds(s, k),
{
}

/// A live diff from the exchange loses nothing and causes no resync.
proof fn lemma_live_calm<R: SeqRule, O: BookObserver>(
    w: Exchange,
    p: Progress<R, O::State>,
    d: DepthDiff,
    e: int,
    i: int,
    f: Feed,
    kept: spec_fn(int) -> bool,
    kept2: spec_fn(int) -> bool,
    now_ms: u64,
)
    requires
        w.wf(),
        calm(w),
        fits(p.s.rule, w),
        (f.sent)(e) <= now_ms,
        e > i + 1 ==> e - (i + 1) <= p.s.cfg.max_pending && within(
            w,
            p.s,
            i,
            p.s.cfg.max_pending as int,
        ),
        orderly(p.s),
        stored(p.s, own_key()),
        stored(p.s, w.reports()),
        follows(w, p.s, i, f, kept),
        w.delivers(e, d),
        forall|x: int| #[trigger] kept2(x) ==> kept(x) || x == e,
    ensures
        ({
            let q = live_next::<R, O>(p, d, now_ms);
            &&& calm_step(p, q)
            &&& q.s.buffer == p.s.buffer
            &&& exists|k: int| i <= k && #[trigger] follows(w, q.s, k, f, kept2)
        }),
{
    let key = (d.first_id, d.last_id);
    let q = live_next::<R, O>(p, d, now_ms);
    assert(w.chain_at(p.s.rule, e, i) == p.s.rule.chains(
        d.first_id,
        d.last_id,
        d.prev_last_id,
        p.s.last,
    ));
    if e <= i {
        assert(follows(w, q.s, i, f, kept2));
    } else if e == i + 1 {
        lemma_apply_calm::<R, O>(w, p, d, i, e, now_ms);
        let a = apply_next::<R, O>(p, d, now_ms);
        assert forall|x: int| 1 <= x <= w.len() && #[trigger] kept2(x) implies x <= e || holds(
            a.s.pending,
            key_of(w, x),
        ) by {
            assert(kept(x) || x == e);
        }
        lemma_drain_calm::<R, O>(w, a, e, f, kept2, now_ms);
        let r = drain_next::<R, O>(a, now_ms);
        let m = choose|m: int| e <= m && #[trigger] follows(w, r.s, m, f, kept2);
        assert(follows(w, q.s, m, f, kept2));
    } else {
        assert(key == key_of(w, e));
        if holds(p.s.pending, key) {
            assert(follows(w, q.s, i, f, kept2)) by {
                assert forall|x: int| 1 <= x <= w.len() && #[trigger] kept2(x) implies x <= i
                    || holds(q.s.pending, key_of(w, x)) by {
                    assert(kept(x) || x == e);
                }
            }
        } else {
            let pending = put(p.s.pending, key, (d, now_ms));
            lemma_put(p.s.pending, key, (d, now_ms));
            lemma_put_entries(p.s.pending, key, (d, now_ms));
            let t = SyncState { pending, ..p.s };
            assert(own_key()(key, d));
            assert(w.reports()(key, d));
            assert(stored(t, own_key()));
            assert forall|m: int| 0 <= m < t.pending.len() implies later(
                w,
                (#[trigger] t.pending[m]).1.0,
                i + 1,
            ) by {
                if pending[m] == (key, (d, now_ms)) {
                    assert(w.delivers(e, t.pending[m].1.0));
                } else {
                    let o = choose|o: int| 0 <= o < p.s.pending.len() && p.s.pending[o] == pending[m];
                    assert(later(w, p.s.pending[o].1.0, i + 1));
                }
            }
            assert(beyond(w, t, i));
            assert forall|m: int, x: int|
                0 <= m < t.pending.len() && #[trigger] w.delivers(
                    x,
                    (#[trigger] t.pending[m]).1.0,
                ) implies x - (i + 1) <= p.s.cfg.max_pending && (f.sent)(x)
                <= t.pending[m].1.1 by {
                if pending[m] == (key, (d, now_ms)) {
                    lemma_same_event(w, x, e, d);
                } else {
                    let o = choose|o: int| 0 <= o < p.s.pending.len() && p.s.pending[o] == pending[m];
                    assert(w.delivers(x, p.s.pending[o].1.0));
                }
            }
            assert(within(w, t, i, p.s.cfg.max_pending as int));
            assert(stamped(w, t, f));
            lemma_pending_fits(w, t, i, p.s.cfg.max_pending as int);
            assert(q.s.pending == pending);
            assert forall|x: int| 1 <= x <= w.len() && #[trigger] kept2(x) implies x <= i || holds(
                q.s.pending,
                key_of(w, x),
            ) by {
                assert(kept(x) || x == e);
                assert(find(pending, key_of(w, x)) == (if key_of(w, x) == key {
                    Some((d, now_ms))
                } else {
                    find(p.s.pending, key_of(w, x))
                }));
            }
            assert(gap(w, q.s, i)) by {
                if i < w.len() {
                    lemma_key_order(w, i + 1, e);
                    assert(find(pending, key_of(w, i + 1)) == (if key_of(w, i + 1) == key {
                        Some((d, now_ms))
                    } else {
                        find(p.s.pending, key_of(w, i + 1))
                    }));
                }
            }
            assert(follows(w, q.s, i, f, kept2));
        }
    }
}

/// What is held came, so it is not far after the event that has not.
proof fn lemma_within<R, S>(
    w: Exchange,
    s: SyncState<R, S>,
    i: int,
    f: Feed,
    kept: spec_fn(int) -> bool,
    cap: int,
)
    requires
        w.wf(),
        0 <= f.from <= i < w.len(),
        cap >= 0,
        near(w, f, kept, cap),
        stored(s, from_kept(w, kept)),
        !kept(i + 1),
    ensures
        within(w, s, i, cap),
{
    assert forall|m: int, x: int|
        0 <= m < s.pending.len() && #[trigger] w.delivers(
            x,
            (#[trigger] s.pending[m]).1.0,
        ) implies x - (i + 1) <= cap by {
        assert(from_kept(w, kept)(s.pending[m].0, s.pending[m].1.0));
        let y = choose|y: int| #[trigger] w.delivers(y, s.pending[m].1.0) && kept(y);
        lemma_same_event(w, x, y, s.pending[m].1.0);
        assert(kept(x));
    }
}

/// Feeding the gathered diffs loses nothing and causes no resync.
proof fn lemma_feed_calm<R: SeqRule, O: BookObserver>(
    w: Exchange,
    p: Progress<R, O::State>,
    rest: Seq<((u64, u64), DepthDiff)>,
    i: int,
    f: Feed,
    kept: spec_fn(int) -> bool,
    now_ms: u64,
)
    requires
        w.wf(),
        calm(w),
        fits(p.s.rule, w),
        0 <= f.from <= i,
        near(w, f, kept, p.s.cfg.max_pending as int),
        forall|x: int| 1 <= x <= w.len() && #[trigger] kept(x) ==> (f.sent)(x) <= now_ms,
        feedable(p.s, rest, own_key()),
        feedable(p.s, rest, w.reports()),
        feedable(p.s, rest, from_kept(w, kept)),
        p.s.phase == Phase::Live,
        p.s.held is None,
        at(w, p.s, i),
        gap(w, p.s, i),
        beyond(w, p.s, i),
        stamped(w, p.s, f),
        forall|x: int|
            1 <= x <= w.len() && #[trigger] kept(x) ==> x <= i || holds(p.s.pending, key_of(w, x))
                || holds(rest, key_of(w, x)),
    ensures
        ({
            let q = feed_next::<R, O>(p, rest, now_ms);
            &&& calm_step(p, q)
            &&& exists|k: int| i <= k && #[trigger] follows(w, q.s, k, f, kept)
        }),
    decreases rest.len(),
{
    if rest.len() == 0 {
        lemma_empty_holds(rest);
        assert(follows(w, p.s, i, f, kept));
    } else {
        let (key, d) = rest[0];
        let q = fed::<R, O>(p, key, d, now_ms);
        lemma_feed_step::<R, O>(p, rest, now_ms, own_key());
        lemma_feed_step::<R, O>(p, rest, now_ms, w.reports());
        lemma_feed_step::<R, O>(p, rest, now_ms, from_kept(w, kept));
        assert(from_kept(w, kept)(rest[0].0, rest[0].1));
        let e = choose|e: int| #[trigger] w.delivers(e, d) && kept(e);
        if e > i + 1 {
            assert(!kept(i + 1)) by {
                if kept(i + 1) && holds(rest, key_of(w, i + 1)) {
                    lemma_key_order(w, i + 1, e);
                    let m = rank(rest, key_of(w, i + 1)) as int;
                    assert(m > 0 ==> key_lt(rest[0].0, rest[m].0));
                }
            }
            lemma_within(w, p.s, i, f, kept, p.s.cfg.max_pending as int);
        }
        let kept0 = |x: int| x <= i || holds(p.s.pending, key_of(w, x));
        let kept2 = |x: int| kept0(x) || x == e;
        assert(follows(w, p.s, i, f, kept0));
        lemma_live_calm::<R, O>(w, p, d, e, i, f, kept0, kept2, now_ms);
        let k = choose|k: int| i <= k && #[trigger] follows(w, q.s, k, f, kept2);
        assert forall|x: int| 1 <= x <= w.len() && #[trigger] kept(x) implies x <= k || holds(
            q.s.pending,
            key_of(w, x),
        ) || holds(rest.skip(1), key_of(w, x)) by {
            lemma_skip_holds(rest, key_of(w, x));
            if x <= i || holds(p.s.pending, key_of(w, x)) {
                assert(kept2(x));
            } else if rest[0].0 == key_of(w, x) {
                if x < e {
                    lemma_key_order(w, x, e);
                } else if e < x {
                    lemma_key_order(w, e, x);
                }
                assert(kept2(x));
            }
        }
        lemma_feed_calm::<R, O>(w, q, rest.skip(1), k, f, kept, now_ms);
        let r = feed_next::<R, O>(q, rest.skip(1), now_ms);
        let m = choose|m: int| k <= m && #[trigger] follows(w, r.s, m, f, kept);
        assert(follows(w, r.s, m, f, kept));
    }
}

/// Installing a snapshot loses nothing that came after it.
proof fn lemma_install_calm<R: SeqRule, O: BookObserver>(
    w: Exchange,
    p: Progress<R, O::State>,
    j: int,
    f: Feed,
    kept: spec_fn(int) -> bool,
    now_ms: u64,
)
    requires
        w.wf(),
        calm(w),
        fits(p.s.rule, w),
        0 <= f.from <= j,
        near(w, f, kept, p.s.cfg.max_pending as int),
        forall|x: int| 1 <= x <= w.len() && #[trigger] kept(x) ==> (f.sent)(x) <= now_ms,
        p.s.phase == Phase::Syncing,
        tidy(p.s, w.reports()),
        stored(p.s, from_kept(w, kept)),
        p.s.held is Some,
        w.shows(j, p.s.held->0),
        p.s.buffer.len() > 0,
        p.s.rule.bridges(
            p.s.buffer[0].0.0,
            p.s.buffer[0].0.1,
            p.s.buffer[0].1.prev_last_id,
            (p.s.held->0).last_update_id,
        ) == Class::Next,
        forall|x: int|
            1 <= x <= w.len() && #[trigger] kept(x) ==> x <= j || holds(p.s.buffer, key_of(w, x)),
    ensures
        ({
            let q = install_next::<R, O>(p, now_ms);
            &&& calm_step(p, q)
            &&& exists|k: int| j <= k && #[trigger] follows(w, q.s, k, f, kept)
        }),
{
    let first = p.s.buffer[0].1;
    assert(w.reports()(p.s.buffer[0].0, p.s.buffer[0].1));
    assert(own_key()(p.s.buffer[0].0, p.s.buffer[0].1));
    let e = choose|e: int| #[trigger] w.delivers(e, first);
    lemma_rebuilt_true::<R, O>(w, p, j, e, now_ms);
    lemma_bridged::<R, O>(p, now_ms, own_key());
    lemma_bridged::<R, O>(p, now_ms, w.reports());
    lemma_bridged::<R, O>(p, now_ms, from_kept(w, kept));
    let q = rebuilt::<R, O>(p);
    lemma_apply_calm::<R, O>(w, q, first, j, e, now_ms);
    let b = bridged::<R, O>(p, now_ms);
    let rest = p.s.buffer.skip(1);
    lemma_empty_holds(b.s.pending);
    assert forall|x: int| 1 <= x <= w.len() && #[trigger] kept(x) implies x <= e || holds(
        b.s.pending,
        key_of(w, x),
    ) || holds(rest, key_of(w, x)) by {
        lemma_skip_holds(p.s.buffer, key_of(w, x));
        if x > j && p.s.buffer[0].0 == key_of(w, x) {
            if x < e {
                lemma_key_order(w, x, e);
            } else if e < x {
                lemma_key_order(w, e, x);
            }
        }
    }
    lemma_feed_calm::<R, O>(w, b, rest, e, f, kept, now_ms);
    let r = feed_next::<R, O>(b, rest, now_ms);
    let m = choose|m: int| e <= m && #[trigger] follows(w, r.s, m, f, kept);
    assert(follows(w, r.s, m, f, kept));
}

/// Event `x` is before a snapshot with update id `top`: the book no longer needs it.
spec fn gone<R: SeqRule>(w: Exchange, r: R, x: int, top: int) -> bool {
    exists|j: int|
        0 <= j <= w.len() && #[trigger] w.id(j) == top && w.bridge_at(r, x, j) == Class::Stale
}

/// The buffer was cut to its limit below event `cut`, and still fills it.
spec fn cut_below<R, S>(w: Exchange, s: SyncState<R, S>, cut: int) -> bool {
    cut <= 1 || {
        &&& s.buffer.len() >= s.cfg.max_buffer
        &&& forall|m: int|
            0 <= m < s.buffer.len() ==> later(w, (#[trigger] s.buffer[m]).1, cut - 1)
    }
}

/// What came from event `cut` on is before a snapshot with update id `top` or in the
/// buffer, which was cut below.
spec fn stocked<R: SeqRule, S>(
    w: Exchange,
    s: SyncState<R, S>,
    top: int,
    kept: spec_fn(int) -> bool,
    cut: int,
) -> bool {
    &&& cut_below(w, s, cut)
    &&& forall|x: int|
        1 <= x <= w.len() && cut <= x && #[trigger] kept(x) ==> gone(w, s.rule, x, top) || holds(
            s.buffer,
            key_of(w, x),
        )
}

/// What came from event `cut` on is before the snapshot of book `j` or in the buffer,
/// which was cut below.
spec fn covered<R: SeqRule, S>(
    w: Exchange,
    s: SyncState<R, S>,
    j: int,
    kept: spec_fn(int) -> bool,
    cut: int,
) -> bool {
    &&& cut_below(w, s, cut)
    &&& forall|x: int|
        1 <= x <= w.len() && cut <= x && #[trigger] kept(x) ==> w.bridge_at(s.rule, x, j)
            == Class::Stale || holds(s.buffer, key_of(w, x))
}

/// Nothing that came is lost but by a full buffer: it is in the book, in the stores,
/// or before a snapshot with update id `top`. A snapshot that nothing in hand is after
/// stays in hand.
spec fn caught<R: SeqRule, S>(
    w: Exchange,
    s: SyncState<R, S>,
    top: int,
    f: Feed,
    kept: spec_fn(int) -> bool,
) -> bool {
    &&& s.phase == Phase::Syncing ==> {
        &&& s.held matches Some(snap) ==> snap.last_update_id == top && w.id(f.from) <= top
            && s.buffer.len() == 0
        &&& exists|cut: int| #[trigger] stocked(w, s, top, kept, cut)
        &&& 0 <= top && (forall|x: int|
            1 <= x <= w.len() && #[trigger] kept(x) ==> gone(w, s.rule, x, top)) ==> s.held is Some
    }
    &&& s.phase == Phase::Live ==> exists|k: int|
        f.from <= k && #[trigger] follows(w, s, k, f, kept)
}

/// The ids tell the books apart.
proof fn lemma_same_id(w: Exchange, a: int, b: int)
    requires
        w.wf(),
        0 <= a <= w.len(),
        0 <= b <= w.len(),
        w.id(a) <= w.id(b),
    ensures
        a <= b,
{
    if b < a {
        lemma_ids_grow(w, b, a);
    }
}

/// An event before a snapshot is before every later one.
proof fn lemma_gone_later<R: SeqRule>(w: Exchange, r: R, x: int, top: int, j: int)
    requires
        w.wf(),
        fits(r, w),
        1 <= x <= w.len(),
        0 <= j <= w.len(),
        top <= w.id(j),
        gone(w, r, x, top),
    ensures
        w.bridge_at(r, x, j) == Class::Stale,
        x <= j,
{
    let i = choose|i: int|
        0 <= i <= w.len() && #[trigger] w.id(i) == top && w.bridge_at(r, x, i) == Class::Stale;
    lemma_same_id(w, i, j);
}

proof fn lemma_stocked_covered<R: SeqRule, S>(
    w: Exchange,
    s: SyncState<R, S>,
    top: int,
    j: int,
    kept: spec_fn(int) -> bool,
    cut: int,
)
    requires
        w.wf(),
        fits(s.rule, w),
        0 <= j <= w.len(),
        top <= w.id(j),
        stocked(w, s, top, kept, cut),
    ensures
        covered(w, s, j, kept, cut),
{
    assert forall|x: int| 1 <= x <= w.len() && cut <= x && #[trigger] kept(x) implies w.bridge_at(
        s.rule,
        x,
        j,
    ) == Class::Stale || holds(s.buffer, key_of(w, x)) by {
        if gone(w, s.rule, x, top) {
            lemma_gone_later(w, s.rule, x, top, j);
        }
    }
}

proof fn lemma_covered_stocked<R: SeqRule, S>(
    w: Exchange,
    s: SyncState<R, S>,
    j: int,
    kept: spec_fn(int) -> bool,
    cut: int,
)
    requires
        0 <= j <= w.len(),
        covered(w, s, j, kept, cut),
    ensures
        stocked(w, s, w.id(j) as int, kept, cut),
{
    assert forall|x: int| 1 <= x <= w.len() && cut <= x && #[trigger] kept(x) implies gone(
        w,
        s.rule,
        x,
        w.id(j) as int,
    ) || holds(s.buffer, key_of(w, x)) by {
        if w.bridge_at(s.rule, x, j) == Class::Stale {
            assert(w.id(j) == w.id(j) as int);
        }
    }
}

/// A snapshot in hand that the events in hand cannot bridge is discarded.
proof fn lemma_unbridgeable_calm<R: SeqRule, O: BookObserver>(
    w: Exchange,
    p: Progress<R, O::State>,
    j: int,
    e: int,
    f: Feed,
    kept: spec_fn(int) -> bool,
    cut: int,
    now_ms: u64,
)
    requires
        w.wf(),
        fits(p.s.rule, w),
        p.s.phase == Phase::Syncing,
        p.s.held is Some,
        w.shows(j, p.s.held->0),
        1 <= e <= w.len(),
        kept(e),
        w.bridge_at(p.s.rule, e, j) == Class::Ahead,
        covered(w, p.s, j, kept, cut),
    ensures
        calm_step(p, unbridgeable_next(p, now_ms)),
        caught(w, unbridgeable_next(p, now_ms).s, w.id(j) as int, f, kept),
{
    let q = unbridgeable_next(p, now_ms);
    let top = w.id(j) as int;
    lemma_covered_stocked(w, p.s, j, kept, cut);
    assert(stocked(w, q.s, top, kept, cut));
    if gone(w, q.s.rule, e, top) {
        lemma_gone_later(w, p.s.rule, e, top, j);
    }
}

proof fn lemma_seek_calm<R: SeqRule, O: BookObserver>(
    w: Exchange,
    p: Progress<R, O::State>,
    j: int,
    f: Feed,
    kept: spec_fn(int) -> bool,
    cut: int,
    now_ms: u64,
)
    requires
        w.wf(),
        calm(w),
        fits(p.s.rule, w),
        0 <= f.from <= j,
        near(w, f, kept, p.s.cfg.max_pending as int),
        forall|x: int| 1 <= x <= w.len() && #[trigger] kept(x) ==> (f.sent)(x) <= now_ms,
        p.s.phase == Phase::Syncing,
        tidy(p.s, w.reports()),
        stored(p.s, from_kept(w, kept)),
        p.s.held is Some,
        w.shows(j, p.s.held->0),
        covered(w, p.s, j, kept, cut),
    ensures
        ({
            let q = seek_next::<R, O>(p, now_ms);
            &&& calm_step(p, q)
            &&& caught(w, q.s, w.id(j) as int, f, kept)
            &&& forall|e: int|
                1 <= e <= w.len() && #[trigger] w.bridge_at(p.s.rule, e, j) == Class::Next && holds(
                    p.s.buffer,
                    key_of(w, e),
                ) ==> q.s.phase == Phase::Live
        }),
    decreases p.s.buffer.len(),
{
    let top = w.id(j) as int;
    if f.from < j {
        lemma_ids_grow(w, f.from, j);
    }
    if p.s.buffer.len() > 0 {
        let (key, d) = p.s.buffer[0];
        let snap_id = (p.s.held->0).last_update_id;
        assert(from_kept(w, kept)(p.s.buffer[0].0, p.s.buffer[0].1));
        assert(own_key()(p.s.buffer[0].0, p.s.buffer[0].1));
        let e = choose|e: int| #[trigger] w.delivers(e, d) && kept(e);
        assert(w.bridge_at(p.s.rule, e, j) == p.s.rule.bridges(
            key.0,
            key.1,
            d.prev_last_id,
            snap_id,
        ));
        assert(key == key_of(w, e));
        if cut > 1 {
            assert(later(w, p.s.buffer[0].1, cut - 1));
            let z = choose|z: int| cut - 1 < z && #[trigger] w.delivers(z, d);
            lemma_same_event(w, z, e, d);
        }
        match p.s.rule.bridges(key.0, key.1, d.prev_last_id, snap_id) {
            Class::Stale => {
                let q = Progress {
                    s: SyncState {
                        buffer: p.s.buffer.skip(1),
                        stats: StatsView { pre_snapshot: inc(p.s.stats.pre_snapshot), ..p.s.stats },
                        ..p.s
                    },
                    ..p
                };
                lemma_skip_sorted(p.s.buffer);
                lemma_skip_stored(p.s, q.s, own_key());
                lemma_skip_stored(p.s, q.s, w.reports());
                lemma_skip_stored(p.s, q.s, from_kept(w, kept));
                assert forall|x: int| 1 <= x <= w.len() && w.bridge_at(p.s.rule, x, j)
                    != Class::Stale && holds(p.s.buffer, #[trigger] key_of(w, x)) implies holds(
                    q.s.buffer,
                    key_of(w, x),
                ) by {
                    lemma_skip_holds(p.s.buffer, key_of(w, x));
                    if p.s.buffer[0].0 == key_of(w, x) {
                        if x < e {
                            lemma_key_order(w, x, e);
                        } else if e < x {
                            lemma_key_order(w, e, x);
                        }
                    }
                }
                assert forall|x: int| 1 <= x <= w.len() && #[trigger] kept(x) implies w.bridge_at(
                    q.s.rule,
                    x,
                    j,
                ) == Class::Stale || holds(q.s.buffer, key_of(w, x)) by {
                    assert(w.bridge_at(p.s.rule, e, j) == Class::Stale);
                    if cut <= x && w.bridge_at(p.s.rule, x, j) != Class::Stale {
                        assert(holds(p.s.buffer, key_of(w, x)));
                    }
                }
                lemma_seek_calm::<R, O>(w, q, j, f, kept, 1, now_ms);
            },
            Class::Next => {
                assert forall|x: int| 1 <= x <= w.len() && #[trigger] kept(x) implies x <= j
                    || holds(p.s.buffer, key_of(w, x)) by {
                    assert(w.bridge_at(p.s.rule, x, j) == Class::Stale ==> x <= j);
                    assert(w.bridge_at(p.s.rule, e, j) == Class::Next);
                }
                lemma_install_calm::<R, O>(w, p, j, f, kept, now_ms);
                let q = install_next::<R, O>(p, now_ms);
                let k = choose|k: int| j <= k && #[trigger] follows(w, q.s, k, f, kept);
                assert(follows(w, q.s, k, f, kept));
            },
            _ => {
                assert(w.bridge_at(p.s.rule, e, j) == Class::Ahead);
                lemma_unbridgeable_calm::<R, O>(w, p, j, e, f, kept, cut, now_ms);
                lemma_front_first(w, p.s, e, j);
            },
        }
    } else {
        lemma_empty_holds(p.s.buffer);
        lemma_covered_stocked(w, p.s, j, kept, cut);
    }
}

/// Where the first diff of the buffer is after the snapshot, none of them bridges it.
proof fn lemma_front_first<R: SeqRule, S>(w: Exchange, s: SyncState<R, S>, e: int, j: int)
    requires
        w.wf(),
        fits(s.rule, w),
        sorted(s.buffer),
        s.buffer.len() > 0,
        1 <= e <= w.len(),
        0 <= j <= w.len(),
        s.buffer[0].0 == key_of(w, e),
        w.bridge_at(s.rule, e, j) == Class::Ahead,
    ensures
        forall|x: int|
            1 <= x <= w.len() && #[trigger] w.bridge_at(s.rule, x, j) == Class::Next ==> !holds(
                s.buffer,
                key_of(w, x),
            ),
{
    assert forall|x: int| 1 <= x <= w.len() && #[trigger] w.bridge_at(s.rule, x, j)
        == Class::Next implies !holds(s.buffer, key_of(w, x)) by {
        if holds(s.buffer, key_of(w, x)) {
            assert(x < e);
            lemma_key_order(w, x, e);
            let m = rank(s.buffer, key_of(w, x)) as int;
            assert(m > 0 ==> key_lt(s.buffer[0].0, s.buffer[m].0));
        }
    }
}

/// Trying the snapshot in hand loses nothing, and goes live where an event in hand
/// bridges it.
proof fn lemma_try_calm<R: SeqRule, O: BookObserver>(
    w: Exchange,
    p: Progress<R, O::State>,
    j: int,
    f: Feed,
    kept: spec_fn(int) -> bool,
    cut: int,
    now_ms: u64,
)
    requires
        w.wf(),
        calm(w),
        fits(p.s.rule, w),
        opens(p.s.rule, w),
        0 <= f.from <= j,
        near(w, f, kept, p.s.cfg.max_pending as int),
        forall|x: int| 1 <= x <= w.len() && #[trigger] kept(x) ==> (f.sent)(x) <= now_ms,
        p.s.phase == Phase::Syncing,
        tidy(p.s, w.reports()),
        stored(p.s, from_kept(w, kept)),
        p.s.held is Some,
        w.shows(j, p.s.held->0),
        covered(w, p.s, j, kept, cut),
    ensures
        ({
            let q = try_install_next::<R, O>(p, now_ms);
            &&& calm_step(p, q)
            &&& caught(w, q.s, w.id(j) as int, f, kept)
            &&& forall|e: int|
                1 <= e <= w.len() && #[trigger] w.bridge_at(p.s.rule, e, j) == Class::Next && holds(
                    p.s.buffer,
                    key_of(w, e),
                ) ==> q.s.phase == Phase::Live
        }),
{
    lemma_seek_calm::<R, O>(w, p, j, f, kept, cut, now_ms);
    if p.s.buffer.len() > 0 && p.s.rule.too_old(
        p.s.buffer[0].0.0,
        (p.s.held->0).last_update_id,
    ) {
        let d = p.s.buffer[0].1;
        assert(from_kept(w, kept)(p.s.buffer[0].0, p.s.buffer[0].1));
        assert(own_key()(p.s.buffer[0].0, p.s.buffer[0].1));
        let e = choose|e: int| #[trigger] w.delivers(e, d) && kept(e);
        assert(w.bridge_at(p.s.rule, e, j) == Class::Ahead);
        lemma_unbridgeable_calm::<R, O>(w, p, j, e, f, kept, cut, now_ms);
        lemma_front_first(w, p.s, e, j);
    }
}

proof fn lemma_diff_live_calm<R: SeqRule, O: BookObserver>(
    w: Exchange,
    s: SyncState<R, O::State>,
    d: DepthDiff,
    e: int,
    top: int,
    f: Feed,
    kept: spec_fn(int) -> bool,
    kept2: spec_fn(int) -> bool,
    now_ms: u64,
)
    requires
        w.wf(),
        calm(w),
        fits(s.rule, w),
        opens(s.rule, w),
        0 <= f.from <= w.len(),
        sound(w, s),
        stored(s, from_kept(w, kept)),
        caught(w, s, top, f, kept),
        w.delivers(e, d),
        kept2(e),
        forall|x: int| #[trigger] kept2(x) ==> kept(x) || x == e,
        forall|x: int| #[trigger] kept(x) ==> kept2(x),
        near(w, f, kept2, s.cfg.max_pending as int),
        forall|x: int| 1 <= x <= w.len() && #[trigger] kept2(x) ==> (f.sent)(x) <= now_ms,
        s.phase == Phase::Live,
    ensures
        ({
            let q = on_diff_next::<R, O>(s, d, now_ms);
            &&& q.st.resync is None
            &&& q.s.stats.resyncs() == s.stats.resyncs()
            &&& q.s.cfg == s.cfg
            &&& caught(w, q.s, top, f, kept2)
            &&& q.s.phase == Phase::Live
        }),
{
    let s1 = SyncState { stats: StatsView { diffs_rx: inc(s.stats.diffs_rx), ..s.stats }, ..s };
    let key = (d.first_id, d.last_id);
    let q = on_diff_next::<R, O>(s, d, now_ms);
    assert(own_key()(key, d));
    assert(w.reports()(key, d));
    assert(from_kept(w, kept2)(key, d));
    assert(key == key_of(w, e));
    lemma_stored_kept(w, s, kept, kept2);
    let i = choose|i: int| f.from <= i && #[trigger] follows(w, s, i, f, kept);
    assert(follows(w, s1, i, f, kept));
    if e > i + 1 {
        assert(!kept2(i + 1));
        assert(kept2(e));
        lemma_within(w, s1, i, f, kept2, s.cfg.max_pending as int);
    }
    lemma_live_calm::<R, O>(
        w,
        Progress { s: s1, st: Step::none() },
        d,
        e,
        i,
        f,
        kept,
        kept2,
        now_ms,
    );
    let k = choose|k: int| i <= k && #[trigger] follows(w, q.s, k, f, kept2);
    assert(follows(w, q.s, k, f, kept2));
}

/// Cutting the buffer to its limit drops the first events of it.
proof fn lemma_trim_calm<R: SeqRule, S>(
    w: Exchange,
    s: SyncState<R, S>,
    top: int,
    kept: spec_fn(int) -> bool,
    cut: int,
) -> (c: int)
    requires
        w.wf(),
        sorted(s.buffer),
        stored(s, own_key()),
        stored(s, w.reports()),
        cut <= 1 || s.buffer.len() > s.cfg.max_buffer,
        cut <= 1 || forall|m: int|
            1 <= m < s.buffer.len() ==> later(w, (#[trigger] s.buffer[m]).1, cut - 1),
        forall|x: int|
            1 <= x <= w.len() && cut <= x && #[trigger] kept(x) ==> gone(w, s.rule, x, top)
                || holds(s.buffer, key_of(w, x)),
    ensures
        stocked(w, trimmed(s), top, kept, c),
        trimmed(s).rule == s.rule,
        trimmed(s).cfg == s.cfg,
        trimmed(s).stats.resyncs() == s.stats.resyncs(),
    decreases s.buffer.len(),
{
    if s.buffer.len() > s.cfg.max_buffer {
        let t = SyncState {
            buffer: s.buffer.skip(1),
            stats: StatsView { buffer_dropped: inc(s.stats.buffer_dropped), ..s.stats },
            ..s
        };
        lemma_skip_sorted(s.buffer);
        lemma_skip_stored(s, t, own_key());
        lemma_skip_stored(s, t, w.reports());
        assert(w.reports()(s.buffer[0].0, s.buffer[0].1));
        assert(own_key()(s.buffer[0].0, s.buffer[0].1));
        let y = choose|y: int| #[trigger] w.delivers(y, s.buffer[0].1);
        let c = if cut > y {
            cut
        } else {
            y + 1
        };
        assert forall|m: int| 0 <= m < t.buffer.len() implies later(
            w,
            (#[trigger] t.buffer[m]).1,
            c - 1,
        ) by {
            let d = s.buffer[m + 1].1;
            assert(t.buffer[m] == s.buffer[m + 1]);
            assert(w.reports()(s.buffer[m + 1].0, d));
            assert(own_key()(s.buffer[m + 1].0, d));
            assert(key_lt(s.buffer[0].0, s.buffer[m + 1].0));
            let x = choose|x: int| #[trigger] w.delivers(x, d);
            if x < y {
                lemma_key_order(w, x, y);
            }
            if cut > 1 {
                assert(later(w, s.buffer[m + 1].1, cut - 1));
                let z = choose|z: int| cut - 1 < z && #[trigger] w.delivers(z, d);
                lemma_same_event(w, x, z, d);
            }
        }
        assert forall|x: int| 1 <= x <= w.len() && c <= x && #[trigger] kept(x) implies gone(
            w,
            t.rule,
            x,
            top,
        ) || holds(t.buffer, key_of(w, x)) by {
            lemma_skip_holds(s.buffer, key_of(w, x));
            lemma_key_order(w, y, x);
        }
        if t.buffer.len() > t.cfg.max_buffer {
            lemma_trim_calm(w, t, top, kept, c)
        } else {
            assert(trimmed(t) == t);
            assert(trimmed(s) == t);
            c
        }
    } else {
        cut
    }
}

/// A diff that comes while synchronising is gathered.
proof fn lemma_gather_calm<R: SeqRule, O: BookObserver>(
    w: Exchange,
    s: SyncState<R, O::State>,
    d: DepthDiff,
    e: int,
    top: int,
    f: Feed,
    kept: spec_fn(int) -> bool,
    kept2: spec_fn(int) -> bool,
)
    requires
        w.wf(),
        fits(s.rule, w),
        0 <= f.from <= w.len(),
        sound(w, s),
        stored(s, from_kept(w, kept)),
        caught(w, s, top, f, kept),
        w.delivers(e, d),
        kept2(e),
        forall|x: int| #[trigger] kept2(x) ==> kept(x) || x == e,
        forall|x: int| #[trigger] kept(x) ==> kept2(x),
        s.phase == Phase::Syncing,
    ensures
        ({
            let s1 = SyncState {
                stats: StatsView { diffs_rx: inc(s.stats.diffs_rx), ..s.stats },
                ..s
            };
            let g = gathered(s1, d);
            &&& g.phase == Phase::Syncing
            &&& g.held == s.held
            &&& g.rule == s.rule
            &&& g.cfg == s.cfg
            &&& g.stats.resyncs() == s.stats.resyncs()
            &&& tidy(g, w.reports())
            &&& stored(g, from_kept(w, kept2))
            &&& s.held is Some && s.cfg.max_buffer > 0 ==> holds(g.buffer, key_of(w, e))
            &&& exists|cut: int| #[trigger] stocked(w, g, top, kept2, cut)
        }),
{
    let s1 = SyncState { stats: StatsView { diffs_rx: inc(s.stats.diffs_rx), ..s.stats }, ..s };
    let key = (d.first_id, d.last_id);
    assert(own_key()(key, d));
    assert(w.reports()(key, d));
    assert(from_kept(w, kept2)(key, d));
    assert(key == key_of(w, e));
    lemma_stored_kept(w, s, kept, kept2);
    let g = gathered(s1, d);
    let cut = choose|cut: int| #[trigger] stocked(w, s, top, kept, cut);
    if holds(s1.buffer, key) {
        assert(stocked(w, g, top, kept2, cut));
    } else {
        let s2 = SyncState { buffer: put(s1.buffer, key, d), ..s1 };
        let b = s2.buffer;
        lemma_put(s1.buffer, key, d);
        lemma_put_entries(s1.buffer, key, d);
        assert(stored(s2, from_kept(w, kept2)));
        assert(stored(s2, w.reports()));
        assert(stored(s2, own_key()));
        lemma_trimmed(s2, from_kept(w, kept2));
        lemma_trimmed(s2, w.reports());
        lemma_trimmed(s2, own_key());
        assert forall|x: int| 1 <= x <= w.len() && cut <= x && #[trigger] kept2(x) implies gone(
            w,
            s.rule,
            x,
            top,
        ) || holds(s2.buffer, key_of(w, x)) by {
            assert(find(put(s1.buffer, key, d), key_of(w, x)) == (if key_of(w, x) == key {
                Some(d)
            } else {
                find(s1.buffer, key_of(w, x))
            }));
        }
        if cut > 1 {
            assert forall|m: int| 1 <= m < b.len() implies later(
                w,
                (#[trigger] b[m]).1,
                cut - 1,
            ) by {
                if b[m] == (key, d) {
                    assert(key_lt(b[0].0, b[m].0));
                    let i = choose|i: int| 0 <= i < s1.buffer.len() && s1.buffer[i] == b[0];
                    assert(later(w, s1.buffer[i].1, cut - 1));
                    assert(own_key()(s1.buffer[i].0, s1.buffer[i].1));
                    let z = choose|z: int|
                        cut - 1 < z && #[trigger] w.delivers(z, s1.buffer[i].1);
                    if e < z {
                        lemma_key_order(w, e, z);
                    }
                    assert(w.delivers(e, b[m].1));
                } else {
                    let i = choose|i: int| 0 <= i < s1.buffer.len() && s1.buffer[i] == b[m];
                    assert(later(w, s1.buffer[i].1, cut - 1));
                }
            }
        }
        let c = lemma_trim_calm(w, s2, top, kept2, cut);
        assert(stocked(w, g, top, kept2, c));
        if s.held is Some && s.cfg.max_buffer > 0 {
            assert(trimmed(s2) == s2);
            assert(find(put(s1.buffer, key, d), key) == Some(d));
        }
    }
}

proof fn lemma_diff_calm<R: SeqRule, O: BookObserver>(
    w: Exchange,
    s: SyncState<R, O::State>,
    d: DepthDiff,
    e: int,
    top: int,
    f: Feed,
    kept: spec_fn(int) -> bool,
    kept2: spec_fn(int) -> bool,
    now_ms: u64,
)
    requires
        w.wf(),
        calm(w),
        fits(s.rule, w),
        opens(s.rule, w),
        0 <= f.from <= w.len(),
        sound(w, s),
        stored(s, from_kept(w, kept)),
        caught(w, s, top, f, kept),
        w.delivers(e, d),
        kept2(e),
        forall|x: int| #[trigger] kept2(x) ==> kept(x) || x == e,
        forall|x: int| #[trigger] kept(x) ==> kept2(x),
        near(w, f, kept2, s.cfg.max_pending as int),
        forall|x: int| 1 <= x <= w.len() && #[trigger] kept2(x) ==> (f.sent)(x) <= now_ms,
    ensures
        ({
            let q = on_diff_next::<R, O>(s, d, now_ms);
            &&& q.st.resync is None
            &&& q.s.stats.resyncs() == s.stats.resyncs()
            &&& q.s.cfg == s.cfg
            &&& caught(w, q.s, top, f, kept2)
            &&& s.phase == Phase::Live ==> q.s.phase == Phase::Live
            &&& forall|j: int|
                s.cfg.max_buffer > 0 && 0 <= j <= w.len() && w.id(j) == top
                    && #[trigger] w.bridge_at(s.rule, e, j) == Class::Next && (forall|x: int|
                    1 <= x <= w.len() && #[trigger] kept(x) ==> w.bridge_at(s.rule, x, j)
                        == Class::Stale) ==> q.s.phase == Phase::Live
        }),
{
    if s.phase == Phase::Live {
        lemma_diff_live_calm::<R, O>(w, s, d, e, top, f, kept, kept2, now_ms);
    } else {
        lemma_gather_calm::<R, O>(w, s, d, e, top, f, kept, kept2);
        let s1 = SyncState { stats: StatsView { diffs_rx: inc(s.stats.diffs_rx), ..s.stats }, ..s };
        let q = on_diff_next::<R, O>(s, d, now_ms);
        let g = gathered(s1, d);
        let p = Progress { s: g, st: Step::none() };
        let cut = choose|cut: int| #[trigger] stocked(w, g, top, kept2, cut);
        assert forall|j: int|
            0 <= j <= w.len() && w.id(j) == top && #[trigger] w.bridge_at(s.rule, e, j)
                == Class::Next && (forall|x: int|
                1 <= x <= w.len() && #[trigger] kept(x) ==> w.bridge_at(s.rule, x, j)
                    == Class::Stale) implies g.held is Some by {
            assert forall|x: int| 1 <= x <= w.len() && #[trigger] kept(x) implies gone(
                w,
                s.rule,
                x,
                top,
            ) by {
                assert(w.id(j) == top && w.bridge_at(s.rule, x, j) == Class::Stale);
            }
        }
        if g.held is Some {
            let j = choose|j: int| #[trigger] w.shows(j, g.held->0);
            lemma_same_id(w, f.from, j);
            lemma_stocked_covered(w, g, top, j, kept2, cut);
            lemma_try_calm::<R, O>(w, p, j, f, kept2, cut, now_ms);
            assert forall|i: int|
                s.cfg.max_buffer > 0 && 0 <= i <= w.len() && w.id(i) == top
                    && #[trigger] w.bridge_at(s.rule, e, i) == Class::Next && (forall|x: int|
                    1 <= x <= w.len() && #[trigger] kept(x) ==> w.bridge_at(s.rule, x, i)
                        == Class::Stale) implies q.s.phase == Phase::Live by {
                lemma_same_id(w, i, j);
                lemma_same_id(w, j, i);
            }
        } else {
            assert(caught(w, q.s, top, f, kept2)) by {
                assert(stocked(w, q.s, top, kept2, cut));
                if 0 <= top && (forall|x: int|
                    1 <= x <= w.len() && #[trigger] kept2(x) ==> gone(w, s.rule, x, top)) {
                    assert forall|x: int| 1 <= x <= w.len() && #[trigger] kept(x) implies gone(
                        w,
                        s.rule,
                        x,
                        top,
                    ) by {
                        assert(kept2(x));
                    }
                }
            }
        }
    }
}

proof fn lemma_stored_kept<R, S>(
    w: Exchange,
    s: SyncState<R, S>,
    kept: spec_fn(int) -> bool,
    kept2: spec_fn(int) -> bool,
)
    requires
        stored(s, from_kept(w, kept)),
        forall|x: int| #[trigger] kept(x) ==> kept2(x),
    ensures
        stored(s, from_kept(w, kept2)),
{
    assert forall|i: int| 0 <= i < s.buffer.len() implies from_kept(w, kept2)(
        (#[trigger] s.buffer[i]).0,
        s.buffer[i].1,
    ) by {
        assert(from_kept(w, kept)(s.buffer[i].0, s.buffer[i].1));
    }
    assert forall|i: int| 0 <= i < s.pending.len() implies from_kept(w, kept2)(
        (#[trigger] s.pending[i]).0,
        s.pending[i].1.0,
    ) by {
        assert(from_kept(w, kept)(s.pending[i].0, s.pending[i].1.0));
    }
}

proof fn lemma_snapshot_calm<R: SeqRule, O: BookObserver>(
    w: Exchange,
    s: SyncState<R, O::State>,
    snap: DepthSnapshot,
    top: int,
    f: Feed,
    kept: spec_fn(int) -> bool,
    now_ms: u64,
)
    requires
        w.wf(),
        calm(w),
        fits(s.rule, w),
        opens(s.rule, w),
        0 <= f.from <= w.len(),
        sound(w, s),
        stored(s, from_kept(w, kept)),
        caught(w, s, top, f, kept),
        exists|j: int| #[trigger] w.shows(j, snap),
        s.phase == Phase::Syncing ==> top <= snap.last_update_id && w.id(f.from)
            <= snap.last_update_id,
        near(w, f, kept, s.cfg.max_pending as int),
        forall|x: int| 1 <= x <= w.len() && #[trigger] kept(x) ==> (f.sent)(x) <= now_ms,
    ensures
        ({
            let q = on_snapshot_next::<R, O>(s, snap, now_ms);
            &&& q.st.resync is None
            &&& q.s.stats.resyncs() == s.stats.resyncs()
            &&& q.s.cfg == s.cfg
            &&& caught(w, q.s, snap.last_update_id as int, f, kept)
            &&& s.phase == Phase::Live ==> q.s.phase == Phase::Live
            &&& forall|j: int, e: int|
                w.shows(j, snap) && 1 <= e <= w.len() && kept(e) && #[trigger] w.bridge_at(
                    s.rule,
                    e,
                    j,
                ) == Class::Next && (forall|x: int|
                    1 <= x <= w.len() && #[trigger] kept(x) ==> x - e < s.cfg.max_buffer)
                    ==> q.s.phase == Phase::Live
        }),
{
    let j = choose|j: int| #[trigger] w.shows(j, snap);
    let s1 = SyncState {
        held: Some(snap),
        snapshot_req_at: None,
        stats: StatsView { snapshots_rx: inc(s.stats.snapshots_rx), ..s.stats },
        ..s
    };
    let q = on_snapshot_next::<R, O>(s, snap, now_ms);
    if s.phase == Phase::Syncing {
        let p = Progress { s: s1, st: Step::none() };
        lemma_same_id(w, f.from, j);
        let cut = choose|cut: int| #[trigger] stocked(w, s, top, kept, cut);
        assert(stocked(w, s1, top, kept, cut));
        lemma_stocked_covered(w, s1, top, j, kept, cut);
        lemma_try_calm::<R, O>(w, p, j, f, kept, cut, now_ms);
        assert forall|i: int, e: int|
            w.shows(i, snap) && 1 <= e <= w.len() && kept(e) && #[trigger] w.bridge_at(
                s.rule,
                e,
                i,
            ) == Class::Next && (forall|x: int|
                1 <= x <= w.len() && #[trigger] kept(x) ==> x - e < s.cfg.max_buffer)
            implies q.s.phase == Phase::Live by {
            lemma_same_id(w, i, j);
            lemma_same_id(w, j, i);
            if e < cut {
                assert(kept(e));
                let x = lemma_buffer_span(w, s, kept, cut - 1);
                assert(kept(x));
            }
            assert(w.bridge_at(p.s.rule, e, j) == Class::Next);
        }
    } else {
        let i = choose|i: int| f.from <= i && #[trigger] follows(w, s, i, f, kept);
        assert(follows(w, q.s, i, f, kept));
    }
}

/// Event `k` came among the inputs, by some line.
pub open spec fn came(w: Exchange, inputs: Seq<Input>, k: int) -> bool {
    exists|i: int|
        0 <= i < inputs.len() && ((#[trigger] inputs[i]) matches Input::Diff(d, t) && w.delivers(
            k,
            d,
        ))
}

/// The update id of the last snapshot among the inputs, or -1.
pub open spec fn last_shown(inputs: Seq<Input>) -> int
    decreases inputs.len(),
{
    if inputs.len() == 0 {
        -1
    } else {
        match inputs.last() {
            Input::Snapshot(snap, t) => snap.last_update_id as int,
            _ => last_shown(inputs.drop_last()),
        }
    }
}

/// The time of an input, ms.
pub open spec fn when(i: Input) -> int {
    match i {
        Input::Diff(d, t) => t as int,
        Input::Snapshot(snap, t) => t as int,
        Input::Tick(t) => t as int,
        Input::Force(t) => t as int,
    }
}

/// Event `k` was in hand before the inputs or came among them.
pub open spec fn known(w: Exchange, f: Feed, inputs: Seq<Input>, k: int) -> bool {
    (f.base)(k) || came(w, inputs, k)
}

/// The input `i` after the inputs `t` is on time: nothing comes before it is
/// published, and every event owed has come, by some line, when its wait is over.
pub open spec fn on_time(w: Exchange, f: Feed, t: Seq<Input>, i: Input) -> bool {
    &&& forall|k: int|
        1 <= k <= w.len() && #[trigger] known(w, f, t, k) ==> (f.sent)(k) <= when(i)
    &&& i matches Input::Diff(d, n) ==> forall|k: int| #[trigger]
        w.delivers(k, d) ==> (f.sent)(k) <= when(i)
    &&& forall|k: int|
        1 <= k && f.from < k <= w.len() && (f.sent)(k) + f.delay < when(i) ==> #[trigger] known(
            w,
            f,
            t,
            k,
        )
}

/// The input `i` after the inputs `t` completes a bridge: a snapshot that an event
/// in hand bridges, from which on a buffer of `cap` diffs holds the events in hand, or
/// the event that bridges the last snapshot, before any later one.
pub open spec fn bridges_now<R: SeqRule>(
    w: Exchange,
    r: R,
    f: Feed,
    cap: int,
    t: Seq<Input>,
    i: Input,
) -> bool {
    match i {
        Input::Snapshot(snap, n) => exists|j: int, e: int|
            w.shows(j, snap) && 1 <= e <= w.len() && known(w, f, t, e) && #[trigger] w.bridge_at(
                r,
                e,
                j,
            ) == Class::Next && (forall|x: int|
                1 <= x <= w.len() && #[trigger] known(w, f, t, x) ==> x - e < cap),
        Input::Diff(d, n) => exists|j: int, e: int|
            0 < cap && w.delivers(e, d) && 0 <= j <= w.len() && w.id(j) == last_shown(t)
                && #[trigger] w.bridge_at(r, e, j) == Class::Next && (forall|x: int|
                1 <= x <= w.len() && #[trigger] known(w, f, t, x) ==> w.bridge_at(r, x, j)
                    == Class::Stale),
        _ => false,
    }
}

/// A snapshot that bridges has come.
pub open spec fn bridge_came<R: SeqRule>(
    w: Exchange,
    r: R,
    f: Feed,
    cap: int,
    inputs: Seq<Input>,
) -> bool
    decreases inputs.len(),
{
    inputs.len() > 0 && (bridge_came(w, r, f, cap, inputs.drop_last()) || bridges_now(
        w,
        r,
        f,
        cap,
        inputs.drop_last(),
        inputs.last(),
    ))
}

/// The events are published in order, few enough within the wait for the limit of
/// held diffs, and the wait is shorter than the window of a gap.
pub open spec fn paced(w: Exchange, f: Feed, cfg: SyncConfig) -> bool {
    &&& forall|a: int, b: int|
        #![trigger (f.sent)(a), (f.sent)(b)]
        1 <= a <= b <= w.len() ==> (f.sent)(a) <= (f.sent)(b)
    &&& forall|a: int, b: int|
        #![trigger (f.sent)(a), (f.sent)(b)]
        1 <= a < b <= w.len() && (f.sent)(b) <= (f.sent)(a) + f.delay ==> b - a
            <= cfg.max_pending
    &&& 0 <= f.delay < cfg.gap_timeout_ms
}

/// An execution in which each diff and snapshot comes from the exchange and on
/// time, nothing forces a resync, and until one has bridged no snapshot is older than
/// one before it or than the last event that is not owed.
pub open spec fn punctual<R: SeqRule>(
    w: Exchange,
    r: R,
    f: Feed,
    cfg: SyncConfig,
    inputs: Seq<Input>,
) -> bool
    decreases inputs.len(),
{
    inputs.len() == 0 || {
        let t = inputs.drop_last();
        &&& punctual(w, r, f, cfg, t)
        &&& from_exchange(w, inputs.last())
        &&& on_time(w, f, t, inputs.last())
        &&& match inputs.last() {
            Input::Diff(d, now) => true,
            Input::Snapshot(snap, now) => bridge_came(w, r, f, cfg.max_buffer as int, t) || (
            last_shown(t) <= snap.last_update_id && w.id(f.from) <= snap.last_update_id),
            Input::Tick(now) => true,
            Input::Force(now) => false,
        }
    }
}

/// The earliest time is that of a held diff.
proof fn lemma_oldest(pending: Seq<((u64, u64), (DepthDiff, u64))>)
    requires
        pending.len() > 0,
    ensures
        oldest(pending) matches Some(t) && exists|m: int|
            0 <= m < pending.len() && (#[trigger] pending[m]).1.1 == t,
    decreases pending.len(),
{
    let n = pending.len() - 1;
    assert(pending[n] == pending.last());
    if n > 0 {
        let rest = pending.drop_last();
        lemma_oldest(rest);
        let t = oldest(rest)->0;
        let m = choose|m: int| 0 <= m < rest.len() && (#[trigger] rest[m]).1.1 == t;
        assert(pending[m] == rest[m]);
    }
}

/// What is known after one more input.
proof fn lemma_known(w: Exchange, f: Feed, t: Seq<Input>, i: Input)
    requires
        w.wf(),
    ensures
        forall|k: int| #[trigger] known(w, f, t, k) ==> known(w, f, t.push(i), k),
        forall|k: int| #[trigger]
            known(w, f, t.push(i), k) ==> known(w, f, t, k) || (i matches Input::Diff(d, n)
                && w.delivers(k, d)),
        i matches Input::Diff(d, n) ==> forall|k: int| #[trigger]
            w.delivers(k, d) ==> known(w, f, t.push(i), k),
{
    let u = t.push(i);
    assert forall|k: int| #[trigger] known(w, f, t, k) implies known(w, f, u, k) by {
        if came(w, t, k) {
            let m = choose|m: int|
                0 <= m < t.len() && ((#[trigger] t[m]) matches Input::Diff(d, n) && w.delivers(
                    k,
                    d,
                ));
            assert(u[m] == t[m]);
        }
    }
    assert forall|k: int| #[trigger] known(w, f, u, k) implies known(w, f, t, k) || (
    i matches Input::Diff(d, n) && w.delivers(k, d)) by {
        if !(f.base)(k) {
            let m = choose|m: int|
                0 <= m < u.len() && ((#[trigger] u[m]) matches Input::Diff(d, n) && w.delivers(
                    k,
                    d,
                ));
            if m < t.len() {
                assert(t[m] == u[m]);
            }
        }
    }
    assert(u[t.len() as int] == i);
}

/// On time, no event that came is far after one that has not, and nothing came
/// before it was published.
proof fn lemma_near(w: Exchange, f: Feed, cfg: SyncConfig, t: Seq<Input>, i: Input)
    requires
        w.wf(),
        paced(w, f, cfg),
        on_time(w, f, t, i),
    ensures
        near(w, f, |k: int| known(w, f, t.push(i), k), cfg.max_pending as int),
        forall|k: int|
            1 <= k <= w.len() && #[trigger] known(w, f, t.push(i), k) ==> (f.sent)(k) <= when(i),
{
    let u = t.push(i);
    let kept = |k: int| known(w, f, u, k);
    lemma_known(w, f, t, i);
    assert forall|k: int| 1 <= k <= w.len() && #[trigger] known(w, f, u, k) implies (f.sent)(k)
        <= when(i) by {
        assert(known(w, f, t, k) || (i matches Input::Diff(d, n) && w.delivers(k, d)));
    }
    assert forall|a: int, x: int|
        #![trigger kept(a), kept(x)]
        1 <= a && f.from < a < x <= w.len() && !kept(a) && kept(x) implies x - a
        <= cfg.max_pending by {
        assert(!known(w, f, t, a));
        assert((f.sent)(x) <= (f.sent)(a) + f.delay);
    }
}

/// What holds before an input of a punctual execution.
spec fn ready<R: SeqRule, S>(
    w: Exchange,
    s: SyncState<R, S>,
    f: Feed,
    t: Seq<Input>,
    i: Input,
) -> bool {
    &&& w.wf()
    &&& calm(w)
    &&& fits(s.rule, w)
    &&& opens(s.rule, w)
    &&& 0 <= f.from <= w.len()
    &&& paced(w, f, s.cfg)
    &&& sound(w, s)
    &&& punctual(w, s.rule, f, s.cfg, t.push(i))
    &&& stored(s, from_kept(w, |k: int| known(w, f, t, k)))
    &&& caught(w, s, last_shown(t), f, |k: int| known(w, f, t, k))
    &&& bridge_came(w, s.rule, f, s.cfg.max_buffer as int, t) ==> s.phase == Phase::Live
}

/// What an input of a punctual execution keeps: nothing is resynchronised or lost.
spec fn kept_up<R: SeqRule, S>(
    w: Exchange,
    s: SyncState<R, S>,
    q: Progress<R, S>,
    f: Feed,
    u: Seq<Input>,
) -> bool {
    &&& q.st.resync is None
    &&& q.s.stats.resyncs() == s.stats.resyncs()
    &&& q.s.cfg == s.cfg
    &&& caught(w, q.s, last_shown(u), f, |k: int| known(w, f, u, k))
    &&& bridge_came(w, s.rule, f, s.cfg.max_buffer as int, u) ==> q.s.phase == Phase::Live
}

proof fn lemma_take_diff<R: SeqRule, O: BookObserver>(
    w: Exchange,
    s: SyncState<R, O::State>,
    f: Feed,
    t: Seq<Input>,
    d: DepthDiff,
    now: u64,
)
    requires
        ready(w, s, f, t, Input::Diff(d, now)),
    ensures
        kept_up(w, s, on_diff_next::<R, O>(s, d, now), f, t.push(Input::Diff(d, now))),
{
    let i = Input::Diff(d, now);
    let u = t.push(i);
    let kept = |k: int| known(w, f, t, k);
    let kept2 = |k: int| known(w, f, u, k);
    assert(u.drop_last() =~= t);
    assert(u.last() == i);
    lemma_known(w, f, t, i);
    lemma_near(w, f, s.cfg, t, i);
    let e = choose|e: int| #[trigger] w.delivers(e, d);
    assert forall|k: int| #[trigger] kept2(k) implies kept(k) || k == e by {
        if !kept(k) {
            assert(known(w, f, u, k));
            lemma_same_event(w, k, e, d);
        }
    }
    lemma_diff_calm::<R, O>(w, s, d, e, last_shown(t), f, kept, kept2, now);
    if bridges_now(w, s.rule, f, s.cfg.max_buffer as int, t, i) {
        let (j, x) = choose|j: int, x: int|
            0 < s.cfg.max_buffer as int && w.delivers(x, d) && 0 <= j <= w.len() && w.id(j)
                == last_shown(t)
                && #[trigger] w.bridge_at(s.rule, x, j) == Class::Next && (forall|y: int|
                1 <= y <= w.len() && #[trigger] known(w, f, t, y) ==> w.bridge_at(
                    s.rule,
                    y,
                    j,
                ) == Class::Stale);
        lemma_same_event(w, x, e, d);
        assert forall|y: int| 1 <= y <= w.len() && #[trigger] kept(y) implies w.bridge_at(
            s.rule,
            y,
            j,
        ) == Class::Stale by {
            assert(known(w, f, t, y));
        }
    }
}

proof fn lemma_take_snapshot<R: SeqRule, O: BookObserver>(
    w: Exchange,
    s: SyncState<R, O::State>,
    f: Feed,
    t: Seq<Input>,
    snap: DepthSnapshot,
    now: u64,
)
    requires
        ready(w, s, f, t, Input::Snapshot(snap, now)),
    ensures
        kept_up(w, s, on_snapshot_next::<R, O>(s, snap, now), f, t.push(Input::Snapshot(snap, now))),
{
    let i = Input::Snapshot(snap, now);
    let u = t.push(i);
    let kept = |k: int| known(w, f, t, k);
    let kept2 = |k: int| known(w, f, u, k);
    assert(u.drop_last() =~= t);
    assert(u.last() == i);
    lemma_known(w, f, t, i);
    lemma_near(w, f, s.cfg, t, i);
    assert forall|k: int| #[trigger] kept2(k) implies kept(k) by {
        assert(known(w, f, u, k));
    }
    assert(near(w, f, kept, s.cfg.max_pending as int)) by {
        assert forall|a: int, x: int|
            #![trigger kept(a), kept(x)]
            1 <= a && f.from < a < x <= w.len() && !kept(a) && kept(x) implies x - a
            <= s.cfg.max_pending by {
            assert(!kept2(a) && kept2(x));
        }
    }
    assert forall|x: int| 1 <= x <= w.len() && #[trigger] kept(x) implies (f.sent)(x)
        <= now by {
        assert(known(w, f, t, x));
    }
    lemma_snapshot_calm::<R, O>(w, s, snap, last_shown(t), f, kept, now);
    let q = on_snapshot_next::<R, O>(s, snap, now);
    if bridges_now(w, s.rule, f, s.cfg.max_buffer as int, t, i) {
        let (j, e) = choose|j: int, e: int|
            w.shows(j, snap) && 1 <= e <= w.len() && known(w, f, t, e)
                && #[trigger] w.bridge_at(s.rule, e, j) == Class::Next && (forall|x: int|
                1 <= x <= w.len() && #[trigger] known(w, f, t, x) ==> x - e
                    < s.cfg.max_buffer as int);
        assert(kept(e));
        assert forall|x: int| 1 <= x <= w.len() && #[trigger] kept(x) implies x - e
            < s.cfg.max_buffer by {
            assert(known(w, f, t, x));
        }
    }
    lemma_caught_same(w, q.s, snap.last_update_id as int, f, kept, kept2);
}

proof fn lemma_take_tick<R: SeqRule, O: BookObserver>(
    w: Exchange,
    s: SyncState<R, O::State>,
    f: Feed,
    t: Seq<Input>,
    now: u64,
)
    requires
        ready(w, s, f, t, Input::Tick(now)),
    ensures
        kept_up(w, s, on_tick_next::<R, O>(s, now), f, t.push(Input::Tick(now))),
{
    let i = Input::Tick(now);
    let u = t.push(i);
    let kept = |k: int| known(w, f, t, k);
    let kept2 = |k: int| known(w, f, u, k);
    assert(u.drop_last() =~= t);
    assert(u.last() == i);
    lemma_known(w, f, t, i);
    lemma_near(w, f, s.cfg, t, i);
    let q = on_tick_next::<R, O>(s, now);
    assert forall|k: int| #[trigger] kept2(k) implies kept(k) by {
        assert(known(w, f, u, k));
    }
    if s.phase == Phase::Live {
        let k = choose|k: int| f.from <= k && #[trigger] follows(w, s, k, f, kept);
        if s.pending.len() > 0 {
            lemma_patient(w, s, f, t, now, k);
        }
        assert(follows(w, q.s, k, f, kept));
    }
    if s.phase == Phase::Syncing {
        let cut = choose|cut: int| #[trigger] stocked(w, s, last_shown(t), kept, cut);
        assert(stocked(w, q.s, last_shown(t), kept, cut));
    }
    lemma_caught_same(w, q.s, last_shown(t), f, kept, kept2);
}

proof fn lemma_take_calm<R: SeqRule, O: BookObserver>(
    w: Exchange,
    s: SyncState<R, O::State>,
    f: Feed,
    t: Seq<Input>,
    i: Input,
)
    requires
        ready(w, s, f, t, i),
    ensures
        kept_up(w, s, take::<R, O>(s, i), f, t.push(i)),
        stored(take::<R, O>(s, i).s, from_kept(w, |k: int| known(w, f, t.push(i), k))),
{
    let u = t.push(i);
    let kept = |k: int| known(w, f, t, k);
    let kept2 = |k: int| known(w, f, u, k);
    lemma_known(w, f, t, i);
    lemma_stored_kept(w, s, kept, kept2);
    assert(u.drop_last() =~= t && u.last() == i);
    if let Input::Diff(d, n) = i {
        let e = choose|e: int| #[trigger] w.delivers(e, d);
        assert(kept2(e));
        assert(from_kept(w, kept2)((d.first_id, d.last_id), d));
    }
    lemma_take::<R, O>(s, i, from_kept(w, kept2));
    reveal(take);
    match i {
        Input::Diff(d, now) => lemma_take_diff::<R, O>(w, s, f, t, d, now),
        Input::Snapshot(snap, now) => lemma_take_snapshot::<R, O>(w, s, f, t, snap, now),
        Input::Tick(now) => lemma_take_tick::<R, O>(w, s, f, t, now),
        Input::Force(now) => {},
    }
}

/// On time, no held diff waits for the whole window.
proof fn lemma_patient<R: SeqRule, S>(
    w: Exchange,
    s: SyncState<R, S>,
    f: Feed,
    t: Seq<Input>,
    now: u64,
    k: int,
)
    requires
        w.wf(),
        paced(w, f, s.cfg),
        on_time(w, f, t, Input::Tick(now)),
        0 <= f.from <= k,
        follows(w, s, k, f, |x: int| known(w, f, t, x)),
        s.pending.len() > 0,
    ensures
        oldest(s.pending) matches Some(o) && clamp_u64(now - o) < s.cfg.gap_timeout_ms,
{
    let kept = |x: int| known(w, f, t, x);
    lemma_oldest(s.pending);
    let o = oldest(s.pending)->0;
    let m = choose|m: int| 0 <= m < s.pending.len() && (#[trigger] s.pending[m]).1.1 == o;
    assert(later(w, s.pending[m].1.0, k + 1));
    let x = choose|x: int| k + 1 < x && #[trigger] w.delivers(x, s.pending[m].1.0);
    assert(!kept(k + 1));
    assert(!known(w, f, t, k + 1));
    assert((f.sent)(k + 1) <= (f.sent)(x));
}

proof fn lemma_caught_same<R: SeqRule, S>(
    w: Exchange,
    s: SyncState<R, S>,
    top: int,
    f: Feed,
    kept: spec_fn(int) -> bool,
    kept2: spec_fn(int) -> bool,
)
    requires
        caught(w, s, top, f, kept),
        forall|x: int| #[trigger] kept2(x) ==> kept(x),
        forall|x: int| #[trigger] kept(x) ==> kept2(x),
    ensures
        caught(w, s, top, f, kept2),
{
    if s.phase == Phase::Syncing {
        let cut = choose|cut: int| #[trigger] stocked(w, s, top, kept, cut);
        assert(stocked(w, s, top, kept2, cut));
    }
    if s.phase == Phase::Live {
        let k = choose|k: int| f.from <= k && #[trigger] follows(w, s, k, f, kept);
        assert(follows(w, s, k, f, kept2));
    }
}

/// A punctual execution resynchronises nothing, loses nothing, and is live once a
/// snapshot that bridges has come.
proof fn lemma_punctual<R: SeqRule, O: BookObserver>(
    w: Exchange,
    s0: SyncState<R, O::State>,
    f: Feed,
    inputs: Seq<Input>,
)
    requires
        w.wf(),
        calm(w),
        fits(s0.rule, w),
        opens(s0.rule, w),
        0 <= f.from <= w.len(),
        paced(w, f, s0.cfg),
        sound(w, s0),
        stored(s0, from_kept(w, f.base)),
        caught(w, s0, -1, f, f.base),
        punctual(w, s0.rule, f, s0.cfg, inputs),
    ensures
        ({
            let s = run::<R, O>(s0, inputs);
            &&& sound(w, s)
            &&& s.rule == s0.rule
            &&& s.cfg == s0.cfg
            &&& s.stats.resyncs() == s0.stats.resyncs()
            &&& stored(s, from_kept(w, |k: int| known(w, f, inputs, k)))
            &&& caught(w, s, last_shown(inputs), f, |k: int| known(w, f, inputs, k))
            &&& bridge_came(w, s0.rule, f, s0.cfg.max_buffer as int, inputs) ==> s.phase == Phase::Live
        }),
    decreases inputs.len(),
{
    if inputs.len() == 0 {
        let kept = |k: int| known(w, f, inputs, k);
        assert forall|k: int| #[trigger] kept(k) implies (f.base)(k) by {}
        assert forall|k: int| #[trigger] (f.base)(k) implies kept(k) by {}
        lemma_stored_kept(w, s0, f.base, kept);
        lemma_caught_same(w, s0, -1, f, f.base, kept);
    } else {
        let t = inputs.drop_last();
        lemma_punctual::<R, O>(w, s0, f, t);
        let s = run::<R, O>(s0, t);
        assert(t.push(inputs.last()) =~= inputs);
        lemma_take_sound::<R, O>(w, s, inputs.last());
        lemma_take_calm::<R, O>(w, s, f, t, inputs.last());
    }
}

/// No event is in hand.
pub open spec fn none_in_hand() -> spec_fn(int) -> bool {
    |k: int| false
}

/// A feed from the first event on: `sent` gives when each was published, and
/// `delay` the longest wait until it has come by some line.
pub open spec fn fresh_feed(sent: spec_fn(int) -> int, delay: int) -> Feed {
    Feed { sent, delay, from: 0, base: none_in_hand() }
}

proof fn lemma_start_caught<R: SeqRule, S>(
    w: Exchange,
    rule: R,
    cfg: SyncConfig,
    obs: S,
    f: Feed,
)
    requires
        f.base == none_in_hand(),
    ensures
        sound(w, start(rule, cfg, obs)),
        stored(start(rule, cfg, obs), from_kept(w, f.base)),
        caught(w, start(rule, cfg, obs), -1, f, f.base),
{
    assert(stocked(w, start(rule, cfg, obs), -1, f.base, 1));
}

/// Losses on one line are recovered from the other. The books of the exchange are
/// never crossed; each event is published at `sent(k)` and comes, by at least one
/// line, within `delay` (shorter than the window of a gap), in any order and any
/// number of times. Then there is no resync, the book is live once a snapshot that
/// bridges has come, and once every event has come too it is exactly the last one
/// of the exchange.
pub proof fn law_lines_recover<R: SeqRule, O: BookObserver>(
    w: Exchange,
    rule: R,
    cfg: SyncConfig,
    obs: O::State,
    sent: spec_fn(int) -> int,
    delay: int,
    inputs: Seq<Input>,
)
    requires
        w.wf(),
        calm(w),
        fits(rule, w),
        opens(rule, w),
        paced(w, fresh_feed(sent, delay), cfg),
        punctual(w, rule, fresh_feed(sent, delay), cfg, inputs),
    ensures
        ({
            let s = run::<R, O>(start(rule, cfg, obs), inputs);
            &&& s.stats.resyncs() == 0
            &&& bridge_came(w, rule, fresh_feed(sent, delay), cfg.max_buffer as int, inputs) ==> s.phase == Phase::Live
            &&& bridge_came(w, rule, fresh_feed(sent, delay), cfg.max_buffer as int, inputs) && (forall|k: int|
                1 <= k <= w.len() ==> #[trigger] came(w, inputs, k)) ==> s.phase == Phase::Live
                && at(w, s, w.len())
        }),
{
    let f = fresh_feed(sent, delay);
    let s0 = start::<R, O::State>(rule, cfg, obs);
    lemma_start_caught(w, rule, cfg, obs, f);
    lemma_punctual::<R, O>(w, s0, f, inputs);
    let s = run::<R, O>(s0, inputs);
    if s.phase == Phase::Live && (forall|k: int|
        1 <= k <= w.len() ==> #[trigger] came(w, inputs, k)) {
        let kept = |k: int| known(w, f, inputs, k);
        let k = choose|k: int| f.from <= k && #[trigger] follows(w, s, k, f, kept);
        if k < w.len() {
            assert(came(w, inputs, k + 1));
            assert(kept(k + 1));
        }
    }
}

/// Each diff and snapshot comes from the exchange and on time, nothing forces a
/// resync, and every snapshot bridges when it comes, or one before it did.
pub open spec fn prompt<R: SeqRule>(
    w: Exchange,
    r: R,
    f: Feed,
    cap: int,
    inputs: Seq<Input>,
) -> bool {
    forall|i: int|
        0 <= i < inputs.len() ==> {
            &&& from_exchange(w, #[trigger] inputs[i])
            &&& on_time(w, f, inputs.take(i), inputs[i])
            &&& inputs[i] !is Force
            &&& inputs[i] is Snapshot ==> bridge_came(w, r, f, cap, inputs.take(i + 1))
        }
}

/// A snapshot is among the inputs.
pub open spec fn snapshot_came(inputs: Seq<Input>) -> bool {
    exists|i: int| 0 <= i < inputs.len() && (#[trigger] inputs[i]) is Snapshot
}

/// Where every snapshot bridges when it comes, an execution is punctual.
proof fn lemma_prompt<R: SeqRule>(
    w: Exchange,
    r: R,
    f: Feed,
    cfg: SyncConfig,
    inputs: Seq<Input>,
)
    requires
        w.wf(),
        f.from == 0,
        prompt(w, r, f, cfg.max_buffer as int, inputs),
    ensures
        punctual(w, r, f, cfg, inputs),
        snapshot_came(inputs) ==> bridge_came(w, r, f, cfg.max_buffer as int, inputs),
        !snapshot_came(inputs) ==> last_shown(inputs) == -1,
    decreases inputs.len(),
{
    let cap = cfg.max_buffer as int;
    if inputs.len() > 0 {
        let t = inputs.drop_last();
        let n = t.len() as int;
        assert(inputs.take(n) =~= t);
        assert(inputs.take(n + 1) =~= inputs);
        assert(inputs[n] == inputs.last());
        assert forall|i: int| 0 <= i < t.len() implies {
            &&& from_exchange(w, #[trigger] t[i])
            &&& on_time(w, f, t.take(i), t[i])
            &&& t[i] !is Force
            &&& t[i] is Snapshot ==> bridge_came(w, r, f, cap, t.take(i + 1))
        } by {
            assert(inputs.take(i) =~= t.take(i));
            assert(inputs.take(i + 1) =~= t.take(i + 1));
            assert(t[i] == inputs[i]);
        }
        lemma_prompt(w, r, f, cfg, t);
        if snapshot_came(inputs) {
            let i = choose|i: int| 0 <= i < inputs.len() && (#[trigger] inputs[i]) is Snapshot;
            if i < n {
                assert(t[i] == inputs[i]);
            }
        } else if snapshot_came(t) {
            let i = choose|i: int| 0 <= i < t.len() && (#[trigger] t[i]) is Snapshot;
            assert(inputs[i] == t[i]);
        }
        if let Input::Snapshot(snap, now) = inputs.last() {
            let j = choose|j: int| #[trigger] w.shows(j, snap);
            if j > 0 {
                lemma_ids_grow(w, 0, j);
            }
        }
    }
}

/// With the usual limits, an event every 100 ms, at most 300 ms until it has come by
/// some line, and every snapshot answered by one that bridges, two lines recover what
/// each of them loses: there is no resync, the book is live once a snapshot has come,
/// and once every event has come too it is exactly the last one of the exchange.
pub proof fn law_usual_lines_recover<R: SeqRule, O: BookObserver>(
    w: Exchange,
    rule: R,
    obs: O::State,
    first_ms: int,
    inputs: Seq<Input>,
)
    requires
        w.wf(),
        calm(w),
        fits(rule, w),
        opens(rule, w),
        prompt(
            w,
            rule,
            fresh_feed(|k: int| first_ms + 100 * k, 300),
            usual_limits().max_buffer as int,
            inputs,
        ),
    ensures
        ({
            let s = run::<R, O>(start(rule, usual_limits(), obs), inputs);
            &&& s.stats.resyncs() == 0
            &&& snapshot_came(inputs) ==> s.phase == Phase::Live
            &&& snapshot_came(inputs) && (forall|k: int|
                1 <= k <= w.len() ==> #[trigger] came(w, inputs, k)) ==> s.phase == Phase::Live
                && at(w, s, w.len())
        }),
{
    let sent = |k: int| first_ms + 100 * k;
    lemma_prompt(w, rule, fresh_feed(sent, 300), usual_limits(), inputs);
    assert(paced(w, fresh_feed(sent, 300), usual_limits()));
    law_lines_recover::<R, O>(w, rule, usual_limits(), obs, sent, 300, inputs);
}

/// [`law_usual_lines_recover`] on a spot market of Binance, whose ids are contiguous.
pub proof fn law_spot_lines_recover<O: BookObserver>(
    w: Exchange,
    obs: O::State,
    first_ms: int,
    inputs: Seq<Input>,
)
    requires
        w.wf(),
        calm(w),
        forall|k: int| 1 <= k <= w.len() ==> w.events[k - 1].first == #[trigger] w.id(k - 1) + 1,
        prompt(
            w,
            BinanceSpotRule,
            fresh_feed(|k: int| first_ms + 100 * k, 300),
            usual_limits().max_buffer as int,
            inputs,
        ),
    ensures
        ({
            let s = run::<BinanceSpotRule, O>(start(BinanceSpotRule, usual_limits(), obs), inputs);
            &&& s.stats.resyncs() == 0
            &&& snapshot_came(inputs) ==> s.phase == Phase::Live
            &&& snapshot_came(inputs) && (forall|k: int|
                1 <= k <= w.len() ==> #[trigger] came(w, inputs, k)) ==> s.phase == Phase::Live
                && at(w, s, w.len())
        }),
{
    law_spot_fits(w);
    law_usual_lines_recover::<BinanceSpotRule, O>(w, BinanceSpotRule, obs, first_ms, inputs);
}

/// [`law_usual_lines_recover`] on a futures market of Binance, whose diffs name the id of the
/// one before.
pub proof fn law_futures_lines_recover<O: BookObserver>(
    w: Exchange,
    obs: O::State,
    first_ms: int,
    inputs: Seq<Input>,
)
    requires
        w.wf(),
        calm(w),
        forall|k: int|
            1 <= k <= w.len() ==> w.events[k - 1].prev == Some(#[trigger] w.id(k - 1)),
        prompt(
            w,
            BinanceFuturesRule,
            fresh_feed(|k: int| first_ms + 100 * k, 300),
            usual_limits().max_buffer as int,
            inputs,
        ),
    ensures
        ({
            let s = run::<BinanceFuturesRule, O>(start(BinanceFuturesRule, usual_limits(), obs), inputs);
            &&& s.stats.resyncs() == 0
            &&& snapshot_came(inputs) ==> s.phase == Phase::Live
            &&& snapshot_came(inputs) && (forall|k: int|
                1 <= k <= w.len() ==> #[trigger] came(w, inputs, k)) ==> s.phase == Phase::Live
                && at(w, s, w.len())
        }),
{
    law_futures_fits(w);
    law_usual_lines_recover::<BinanceFuturesRule, O>(w, BinanceFuturesRule, obs, first_ms, inputs);
}

/// One run after another is the run of both.
proof fn lemma_run_add<R: SeqRule, O: BookObserver>(
    s: SyncState<R, O::State>,
    a: Seq<Input>,
    b: Seq<Input>,
)
    ensures
        run::<R, O>(s, a + b) == run::<R, O>(run::<R, O>(s, a), b),
    decreases b.len(),
{
    if b.len() == 0 {
        assert(a + b =~= a);
    } else {
        lemma_run_add::<R, O>(s, a, b.drop_last());
        assert((a + b).drop_last() =~= a + b.drop_last());
        assert((a + b).last() == b.last());
    }
}

/// The feed after event `lost` came by no line: the events after it are owed, and
/// those of `before` are in hand.
pub open spec fn feed_after(
    w: Exchange,
    sent: spec_fn(int) -> int,
    delay: int,
    lost: int,
    before: Seq<Input>,
) -> Feed {
    Feed { sent, delay, from: lost, base: |k: int| lost < k && came(w, before, k) }
}

/// The held diffs go back to the buffer, so none that came after the gap is lost.
proof fn lemma_resync_caught<R: SeqRule, O: BookObserver>(
    w: Exchange,
    s: SyncState<R, O::State>,
    f: Feed,
    g: Feed,
    before: Seq<Input>,
    now: u64,
)
    requires
        w.wf(),
        fits(s.rule, w),
        sound(w, s),
        s.phase == Phase::Live,
        1 <= g.from <= w.len(),
        f.base == none_in_hand(),
        f.from == 0,
        g.base == (|k: int| g.from < k && came(w, before, k)),
        stored(s, from_kept(w, |k: int| known(w, f, before, k))),
        follows(w, s, g.from - 1, f, |k: int| known(w, f, before, k)),
        s.pending.len() > 0,
        oldest(s.pending) matches Some(o) && clamp_u64(now - o) >= s.cfg.gap_timeout_ms,
        s.stats.resyncs() == 0,
    ensures
        ({
            let q = on_tick_next::<R, O>(s, now);
            &&& q.st.resync == Some(ResyncReason::GapTimeout)
            &&& q.st.need_snapshot
            &&& q.s.phase == Phase::Syncing
            &&& q.s.cfg == s.cfg
            &&& q.s.stats.resyncs() == 1
            &&& stored(q.s, from_kept(w, g.base))
            &&& caught(w, q.s, -1, g, g.base)
        }),
{
    let q = on_tick_next::<R, O>(s, now);
    let kept = |k: int| known(w, f, before, k);
    lemma_absorbed(s.buffer, s.pending);
    assert forall|m: int| 0 <= m < q.s.buffer.len() implies from_kept(w, g.base)(
        (#[trigger] q.s.buffer[m]).0,
        q.s.buffer[m].1,
    ) by {
        assert(q.s.buffer[m] == (s.pending[m].0, s.pending[m].1.0));
        assert(from_kept(w, kept)(s.pending[m].0, s.pending[m].1.0));
        let y = choose|y: int| #[trigger] w.delivers(y, s.pending[m].1.0) && kept(y);
        assert(later(w, s.pending[m].1.0, g.from));
        let x = choose|x: int| g.from < x && #[trigger] w.delivers(x, s.pending[m].1.0);
        lemma_same_event(w, x, y, s.pending[m].1.0);
        assert((g.base)(x));
    }
    assert forall|x: int| 1 <= x <= w.len() && #[trigger] (g.base)(x) implies holds(
        q.s.buffer,
        key_of(w, x),
    ) by {
        assert(kept(x));
        let m = rank(s.pending, key_of(w, x)) as int;
        assert(q.s.buffer[m] == (s.pending[m].0, s.pending[m].1.0));
        lemma_entry_found(q.s.buffer, m);
    }
    assert(stocked(w, q.s, -1, g.base, 1));
}

/// After a gap that no line fills, exactly one resync and the exact book again.
/// The execution is punctual until the book waits for event `lost`, and a pulse
/// of the clock finds that a later one has waited for the whole window. Then the
/// snapshot asked for shows the lost event, and the rest of the execution is
/// punctual for the events after it. There is one resync in all, the book is live
/// once a snapshot that bridges has come, and once every event after the lost one
/// has come too it is exactly the last one of the exchange.
pub proof fn law_gap_recovers<R: SeqRule, O: BookObserver>(
    w: Exchange,
    rule: R,
    cfg: SyncConfig,
    obs: O::State,
    sent: spec_fn(int) -> int,
    delay: int,
    before: Seq<Input>,
    lost: int,
    now: u64,
    after: Seq<Input>,
)
    requires
        w.wf(),
        calm(w),
        fits(rule, w),
        opens(rule, w),
        paced(w, fresh_feed(sent, delay), cfg),
        punctual(w, rule, fresh_feed(sent, delay), cfg, before),
        1 <= lost <= w.len(),
        ({
            let s = run::<R, O>(start(rule, cfg, obs), before);
            &&& s.phase == Phase::Live
            &&& at(w, s, lost - 1)
            &&& oldest(s.pending) matches Some(o) && clamp_u64(now - o) >= cfg.gap_timeout_ms
        }),
        punctual(w, rule, feed_after(w, sent, delay, lost, before), cfg, after),
    ensures
        ({
            let f = feed_after(w, sent, delay, lost, before);
            let s0 = start(rule, cfg, obs);
            let tick = take::<R, O>(run::<R, O>(s0, before), Input::Tick(now));
            let s = run::<R, O>(s0, before.push(Input::Tick(now)) + after);
            &&& run::<R, O>(s0, before).stats.resyncs() == 0
            &&& tick.st.resync == Some(ResyncReason::GapTimeout)
            &&& tick.st.need_snapshot
            &&& s.stats.resyncs() == 1
            &&& bridge_came(w, rule, f, cfg.max_buffer as int, after) ==> s.phase == Phase::Live
            &&& bridge_came(w, rule, f, cfg.max_buffer as int, after) && (forall|k: int|
                lost < k <= w.len() ==> #[trigger] came(w, before, k) || came(w, after, k))
                ==> s.phase == Phase::Live && at(w, s, w.len())
        }),
{
    let f = fresh_feed(sent, delay);
    let g = feed_after(w, sent, delay, lost, before);
    let s0 = start::<R, O::State>(rule, cfg, obs);
    lemma_start_caught(w, rule, cfg, obs, f);
    lemma_punctual::<R, O>(w, s0, f, before);
    let s1 = run::<R, O>(s0, before);
    let kept = |k: int| known(w, f, before, k);
    let i = choose|i: int| f.from <= i && #[trigger] follows(w, s1, i, f, kept);
    lemma_same_id(w, i, lost - 1);
    lemma_same_id(w, lost - 1, i);
    lemma_resync_caught::<R, O>(w, s1, f, g, before, now);
    lemma_take_sound::<R, O>(w, s1, Input::Tick(now));
    assert(take::<R, O>(s1, Input::Tick(now)) == on_tick_next::<R, O>(s1, now)) by {
        reveal(take);
    }
    let u = before.push(Input::Tick(now));
    assert(u.drop_last() =~= before);
    let s2 = run::<R, O>(s0, u);
    assert(s2 == on_tick_next::<R, O>(s1, now).s);
    lemma_punctual::<R, O>(w, s2, g, after);
    lemma_run_add::<R, O>(s0, u, after);
    let s = run::<R, O>(s2, after);
    if s.phase == Phase::Live && (forall|k: int|
        lost < k <= w.len() ==> #[trigger] came(w, before, k) || came(w, after, k)) {
        let kept2 = |k: int| known(w, g, after, k);
        let k = choose|k: int| g.from <= k && #[trigger] follows(w, s, k, g, kept2);
        if k < w.len() {
            assert(came(w, before, k + 1) || came(w, after, k + 1));
            assert(kept2(k + 1));
        }
    }
}

} // verus!

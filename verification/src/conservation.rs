//! Conservation of messages: every diff received is accounted for exactly once.

use crate::event::{DepthDiff, DepthSnapshot};
use crate::observer::BookObserver;
use crate::ordmap::{
    all_before, holds, key_lt, lemma_append, lemma_before_absent, lemma_put, lemma_rank_splits, put,
    rank, sorted,
};
use crate::rule::{Class, SeqRule};
use crate::sync::{
    absorb_diff, absorbed, apply_next, cross_resyncs, drain_next, feed_next, force_resync_next,
    gathered, inc, install_next, live_next, on_diff_next, on_snapshot_next, on_tick_next, rebuilt,
    resync_next, seek_next, stale_next, start, trimmed, try_install_next, Phase, Progress,
    ResyncReason, StatsView, Step, SyncConfig, SyncState,
};
use vstd::prelude::*;

verus! {

/// The diffs with a final account, and those still held.
pub open spec fn balance<R, S>(s: SyncState<R, S>) -> int {
    s.stats.settled() + s.buffer.len() + s.pending.len()
}

/// The diffs gathered are in order, and each phase uses its own store.
pub open spec fn orderly<R, S>(s: SyncState<R, S>) -> bool {
    &&& sorted(s.buffer)
    &&& sorted(s.pending)
    &&& s.phase == Phase::Syncing ==> s.pending.len() == 0
    &&& s.phase == Phase::Live ==> s.buffer.len() == 0
}

/// Every diff received is accounted for exactly once.
pub open spec fn accounted<R, S>(s: SyncState<R, S>) -> bool {
    s.stats.diffs_rx == balance(s)
}

/// Every diff gathered or held satisfies `f`, together with the ids it is stored under.
pub open spec fn stored<R, S>(
    s: SyncState<R, S>,
    f: spec_fn((u64, u64), DepthDiff) -> bool,
) -> bool {
    &&& forall|i: int| 0 <= i < s.buffer.len() ==> f((#[trigger] s.buffer[i]).0, s.buffer[i].1)
    &&& forall|i: int|
        0 <= i < s.pending.len() ==> f((#[trigger] s.pending[i]).0, s.pending[i].1.0)
}

/// A diff is stored under its own ids.
pub open spec fn own_key() -> spec_fn((u64, u64), DepthDiff) -> bool {
    |k: (u64, u64), d: DepthDiff| k == (d.first_id, d.last_id)
}

proof fn lemma_rank_len<V>(s: Seq<((u64, u64), V)>, k: (u64, u64))
    ensures
        rank(s, k) <= s.len(),
    decreases s.len(),
{
    if s.len() > 0 {
        lemma_rank_len(s.drop_last(), k);
    }
}

/// Every entry after a `put` is the new one or an old one.
pub proof fn lemma_put_entries<V>(s: Seq<((u64, u64), V)>, k: (u64, u64), v: V)
    ensures
        forall|i: int|
            0 <= i < put(s, k, v).len() ==> (#[trigger] put(s, k, v)[i]) == (k, v) || exists|j: int|
                0 <= j < s.len() && s[j] == put(s, k, v)[i],
{
    let t = put(s, k, v);
    let p = rank(s, k) as int;
    lemma_rank_len(s, k);
    assert forall|i: int| 0 <= i < t.len() implies (#[trigger] t[i]) == (k, v) || exists|j: int|
        0 <= j < s.len() && s[j] == t[i] by {
        if i < p {
            assert(t[i] == s[i]);
        } else if i > p {
            if holds(s, k) {
                assert(t[i] == s[i]);
            } else {
                assert(t[i] == s[i - 1]);
            }
        }
    }
}

/// Where every key of `pending` is absent from the buffer, none is lost.
pub proof fn lemma_absorbed(
    buffer: Seq<((u64, u64), DepthDiff)>,
    pending: Seq<((u64, u64), (DepthDiff, u64))>,
)
    requires
        sorted(buffer),
        sorted(pending),
        buffer.len() == 0 || pending.len() == 0,
    ensures
        sorted(absorbed(buffer, pending)),
        absorbed(buffer, pending).len() == buffer.len() + pending.len(),
        pending.len() > 0 ==> forall|k: (u64, u64)|
            all_before(pending, k) ==> all_before(#[trigger] absorbed(buffer, pending), k),
        pending.len() == 0 ==> absorbed(buffer, pending) == buffer,
        forall|i: int|
            0 <= i < pending.len() && buffer.len() == 0 ==> (#[trigger] absorbed(
                buffer,
                pending,
            )[i]) == (pending[i].0, pending[i].1.0),
    decreases pending.len(),
{
    if pending.len() > 0 {
        let t = pending.drop_last();
        assert(sorted(t)) by {
            assert forall|i: int, j: int| 0 <= i < j < t.len() implies key_lt(
                #[trigger] t[i].0,
                #[trigger] t[j].0,
            ) by {
                assert(t[i] == pending[i] && t[j] == pending[j]);
            }
        }
        lemma_absorbed(buffer, t);
        let a = absorbed(buffer, t);
        let k = pending.last().0;
        let v = pending.last().1.0;
        assert(all_before(a, k)) by {
            assert forall|i: int| 0 <= i < a.len() implies key_lt(#[trigger] a[i].0, k) by {
                assert(a[i] == (t[i].0, t[i].1.0));
                assert(t[i] == pending[i]);
                assert(key_lt(pending[i].0, pending[pending.len() - 1].0));
            }
        }
        lemma_before_absent(a, k);
        lemma_put(a, k, v);
        lemma_append(a, k, v);
        assert forall|q: (u64, u64)| all_before(pending, q) implies all_before(
            #[trigger] absorbed(buffer, pending),
            q,
        ) by {
            let b = absorbed(buffer, pending);
            assert forall|i: int| 0 <= i < b.len() implies key_lt(#[trigger] b[i].0, q) by {
                if i < a.len() {
                    assert(b[i] == a[i]);
                    assert(a[i] == (t[i].0, t[i].1.0));
                }
                assert(key_lt(pending[i].0, q));
            }
        }
    }
}

pub proof fn lemma_skip_sorted<V>(s: Seq<((u64, u64), V)>)
    requires
        sorted(s),
        s.len() > 0,
    ensures
        sorted(s.skip(1)),
        forall|i: int| 0 <= i < s.skip(1).len() ==> key_lt(s[0].0, #[trigger] s.skip(1)[i].0),
{
    let t = s.skip(1);
    assert forall|i: int, j: int| 0 <= i < j < t.len() implies key_lt(
        #[trigger] t[i].0,
        #[trigger] t[j].0,
    ) by {
        assert(t[i] == s[i + 1] && t[j] == s[j + 1]);
    }
    assert forall|i: int| 0 <= i < t.len() implies key_lt(s[0].0, #[trigger] t[i].0) by {
        assert(t[i] == s[i + 1]);
    }
}

proof fn lemma_resync<R, O: BookObserver>(
    p: Progress<R, O::State>,
    reason: ResyncReason,
    now_ms: u64,
    f: spec_fn((u64, u64), DepthDiff) -> bool,
)
    requires
        stored(p.s, f),
        sorted(p.s.buffer),
        sorted(p.s.pending),
        p.s.buffer.len() == 0 || p.s.pending.len() == 0,
    ensures
        ({
            let q = resync_next::<R, O>(p, reason, now_ms);
            &&& orderly(q.s)
            &&& stored(q.s, f)
            &&& q.s.phase == Phase::Syncing
            &&& balance(q.s) == balance(p.s)
            &&& q.s.stats.diffs_rx == p.s.stats.diffs_rx
            &&& forall|k: (u64, u64)|
                all_before(p.s.buffer, k) && all_before(p.s.pending, k) ==> #[trigger] all_before(
                    q.s.buffer,
                    k,
                )
        }),
{
    lemma_absorbed(p.s.buffer, p.s.pending);
    let q = resync_next::<R, O>(p, reason, now_ms);
    assert forall|i: int| 0 <= i < q.s.buffer.len() implies f(
        (#[trigger] q.s.buffer[i]).0,
        q.s.buffer[i].1,
    ) by {
        if p.s.pending.len() > 0 {
            assert(q.s.buffer[i] == (p.s.pending[i].0, p.s.pending[i].1.0));
        }
    }
}

proof fn lemma_apply<R, O: BookObserver>(
    p: Progress<R, O::State>,
    d: DepthDiff,
    now_ms: u64,
    f: spec_fn((u64, u64), DepthDiff) -> bool,
)
    requires
        stored(p.s, f),
        sorted(p.s.buffer),
        sorted(p.s.pending),
        p.s.buffer.len() == 0 || p.s.pending.len() == 0,
    ensures
        ({
            let q = apply_next::<R, O>(p, d, now_ms);
            let crossed = cross_resyncs(absorb_diff::<R, O>(p, d).s);
            &&& balance(p.s) < u64::MAX ==> balance(q.s) == balance(p.s) + 1
            &&& stored(q.s, f)
            &&& q.s.stats.diffs_rx == p.s.stats.diffs_rx
            &&& sorted(q.s.buffer)
            &&& sorted(q.s.pending)
            &&& crossed ==> orderly(q.s) && q.s.phase == Phase::Syncing
            &&& !crossed ==> q.s.phase == p.s.phase && q.s.buffer == p.s.buffer && q.s.pending
                == p.s.pending
            &&& forall|k: (u64, u64)|
                all_before(p.s.buffer, k) && all_before(p.s.pending, k) ==> #[trigger] all_before(
                    q.s.buffer,
                    k,
                ) && all_before(q.s.pending, k)
        }),
{
    let q = absorb_diff::<R, O>(p, d);
    if cross_resyncs(q.s) {
        let c = Progress {
            s: SyncState {
                stats: StatsView { crossed_seen: inc(q.s.stats.crossed_seen), ..q.s.stats },
                ..q.s
            },
            ..q
        };
        lemma_resync::<R, O>(c, ResyncReason::Crossed, now_ms, f);
    }
}

proof fn lemma_drain<R: SeqRule, O: BookObserver>(
    p: Progress<R, O::State>,
    now_ms: u64,
    f: spec_fn((u64, u64), DepthDiff) -> bool,
)
    requires
        stored(p.s, f),
        p.s.phase == Phase::Live,
        orderly(p.s),
    ensures
        ({
            let q = drain_next::<R, O>(p, now_ms);
            &&& orderly(q.s)
            &&& stored(q.s, f)
            &&& balance(p.s) <= u64::MAX ==> balance(q.s) == balance(p.s)
            &&& q.s.stats.diffs_rx == p.s.stats.diffs_rx
            &&& forall|k: (u64, u64)|
                all_before(p.s.pending, k) ==> #[trigger] all_before(q.s.buffer, k) && all_before(
                    q.s.pending,
                    k,
                )
        }),
    decreases p.s.pending.len(),
{
    if p.s.pending.len() > 0 {
        let (key, (d, t)) = p.s.pending[0];
        let rest = SyncState { pending: p.s.pending.skip(1), ..p.s };
        lemma_skip_sorted(p.s.pending);
        assert forall|i: int| 0 <= i < rest.pending.len() implies f(
            (#[trigger] rest.pending[i]).0,
            rest.pending[i].1.0,
        ) by {
            assert(rest.pending[i] == p.s.pending[i + 1]);
        }
        assert forall|k: (u64, u64)| all_before(p.s.pending, k) implies #[trigger] all_before(
            rest.pending,
            k,
        ) by {
            assert forall|i: int| 0 <= i < rest.pending.len() implies key_lt(
                #[trigger] rest.pending[i].0,
                k,
            ) by {
                assert(rest.pending[i] == p.s.pending[i + 1]);
            }
        }
        match p.s.rule.chains(key.0, key.1, d.prev_last_id, p.s.last) {
            Class::Stale => {
                let q = Progress { s: stale_next(rest, d.rx.line), ..p };
                assert(balance(p.s) <= u64::MAX ==> balance(q.s) == balance(p.s));
                lemma_drain::<R, O>(q, now_ms, f);
            },
            Class::Next => {
                let q = Progress {
                    s: SyncState {
                        stats: StatsView {
                            reordered_applied: inc(rest.stats.reordered_applied),
                            ..rest.stats
                        },
                        ..rest
                    },
                    ..p
                };
                assert(balance(q.s) == balance(p.s) - 1);
                lemma_apply::<R, O>(q, d, now_ms, f);
                let a = apply_next::<R, O>(q, d, now_ms);
                if !cross_resyncs(absorb_diff::<R, O>(q, d).s) {
                    lemma_drain::<R, O>(a, now_ms, f);
                }
            },
            Class::Ahead => {},
            Class::Invalid => {
                lemma_resync::<R, O>(p, ResyncReason::InvalidSequence, now_ms, f);
            },
        }
        let r = drain_next::<R, O>(p, now_ms);
        assert forall|k: (u64, u64)| all_before(p.s.pending, k) implies #[trigger] all_before(
            r.s.buffer,
            k,
        ) && all_before(r.s.pending, k) by {
            assert(all_before(rest.pending, k));
            assert(all_before(p.s.buffer, k));
        }
    }
}

proof fn lemma_live<R: SeqRule, O: BookObserver>(
    p: Progress<R, O::State>,
    d: DepthDiff,
    now_ms: u64,
    f: spec_fn((u64, u64), DepthDiff) -> bool,
)
    requires
        stored(p.s, f),
        f((d.first_id, d.last_id), d),
        p.s.phase == Phase::Live,
        orderly(p.s),
    ensures
        ({
            let q = live_next::<R, O>(p, d, now_ms);
            &&& orderly(q.s)
            &&& stored(q.s, f)
            &&& balance(p.s) < u64::MAX ==> balance(q.s) == balance(p.s) + 1
            &&& q.s.stats.diffs_rx == p.s.stats.diffs_rx
            &&& forall|k: (u64, u64)|
                all_before(p.s.pending, k) && key_lt((d.first_id, d.last_id), k)
                    ==> #[trigger] all_before(q.s.buffer, k) && all_before(q.s.pending, k)
        }),
{
    let key = (d.first_id, d.last_id);
    match p.s.rule.chains(d.first_id, d.last_id, d.prev_last_id, p.s.last) {
        Class::Stale => {},
        Class::Next => {
            lemma_apply::<R, O>(p, d, now_ms, f);
            let a = apply_next::<R, O>(p, d, now_ms);
            if !cross_resyncs(absorb_diff::<R, O>(p, d).s) {
                lemma_drain::<R, O>(a, now_ms, f);
            }
        },
        Class::Ahead => {
            if !holds(p.s.pending, key) {
                let pending = put(p.s.pending, key, (d, now_ms));
                lemma_put(p.s.pending, key, (d, now_ms));
                lemma_put_before(p.s.pending, key, (d, now_ms));
                lemma_put_entries(p.s.pending, key, (d, now_ms));
                let q = Progress {
                    s: SyncState {
                        pending,
                        stats: StatsView {
                            ahead: inc(p.s.stats.ahead),
                            max_pending_seen: if p.s.stats.max_pending_seen < pending.len() {
                                crate::num::clamp_u64(pending.len() as int) as u64
                            } else {
                                p.s.stats.max_pending_seen
                            },
                            ..p.s.stats
                        },
                        ..p.s
                    },
                    ..p
                };
                if pending.len() > p.s.cfg.max_pending {
                    lemma_resync::<R, O>(q, ResyncReason::PendingOverflow, now_ms, f);
                }
            }
        },
        Class::Invalid => {
            let q = Progress {
                s: SyncState {
                    stats: StatsView {
                        invalid_dropped: inc(p.s.stats.invalid_dropped),
                        ..p.s.stats
                    },
                    ..p.s
                },
                ..p
            };
            lemma_resync::<R, O>(q, ResyncReason::InvalidSequence, now_ms, f);
        },
    }
}

proof fn lemma_put_before<V>(s: Seq<((u64, u64), V)>, key: (u64, u64), v: V)
    requires
        sorted(s),
    ensures
        forall|k: (u64, u64)|
            all_before(s, k) && key_lt(key, k) ==> #[trigger] all_before(put(s, key, v), k),
{
    let t = put(s, key, v);
    let p = rank(s, key) as int;
    lemma_rank_splits(s, key);
    assert forall|k: (u64, u64)| all_before(s, k) && key_lt(key, k) implies #[trigger] all_before(
        t,
        k,
    ) by {
        assert forall|i: int| 0 <= i < t.len() implies key_lt(#[trigger] t[i].0, k) by {
            if i < p {
                assert(t[i] == s[i]);
            } else if i > p {
                if holds(s, key) {
                    assert(t[i] == s[i]);
                } else {
                    assert(t[i] == s[i - 1]);
                }
            }
        }
    }
}

/// What the diffs still to be fed must satisfy: in order, under their own ids,
/// and after everything stored.
pub open spec fn feedable<R, S>(
    s: SyncState<R, S>,
    rest: Seq<((u64, u64), DepthDiff)>,
    f: spec_fn((u64, u64), DepthDiff) -> bool,
) -> bool {
    &&& orderly(s)
    &&& stored(s, f)
    &&& sorted(rest)
    &&& forall|i: int|
        0 <= i < rest.len() ==> (#[trigger] rest[i]).0 == (rest[i].1.first_id, rest[i].1.last_id)
            && f(rest[i].0, rest[i].1)
    &&& rest.len() > 0 ==> all_before(s.buffer, rest[0].0) && all_before(s.pending, rest[0].0)
}

/// One diff is fed.
pub open spec fn fed<R: SeqRule, O: BookObserver>(
    p: Progress<R, O::State>,
    key: (u64, u64),
    d: DepthDiff,
    now_ms: u64,
) -> Progress<R, O::State> {
    if p.s.phase == Phase::Live {
        live_next::<R, O>(p, d, now_ms)
    } else {
        Progress { s: SyncState { buffer: put(p.s.buffer, key, d), ..p.s }, ..p }
    }
}

/// Feeding one diff accounts for it, and leaves the others feedable.
pub proof fn lemma_feed_step<R: SeqRule, O: BookObserver>(
    p: Progress<R, O::State>,
    rest: Seq<((u64, u64), DepthDiff)>,
    now_ms: u64,
    f: spec_fn((u64, u64), DepthDiff) -> bool,
)
    requires
        feedable(p.s, rest, f),
        rest.len() > 0,
    ensures
        ({
            let q = fed::<R, O>(p, rest[0].0, rest[0].1, now_ms);
            &&& feedable(q.s, rest.skip(1), f)
            &&& balance(p.s) < u64::MAX ==> balance(q.s) == balance(p.s) + 1
            &&& q.s.stats.diffs_rx == p.s.stats.diffs_rx
        }),
{
    let (key, d) = rest[0];
    let tail = rest.skip(1);
    lemma_skip_sorted(rest);
    assert forall|i: int| 0 <= i < tail.len() implies (#[trigger] tail[i]).0 == (
        tail[i].1.first_id,
        tail[i].1.last_id,
    ) && f(tail[i].0, tail[i].1) by {
        assert(tail[i] == rest[i + 1]);
    }
    assert(rest[0].0 == (d.first_id, d.last_id));
    let q = fed::<R, O>(p, key, d, now_ms);
    if p.s.phase == Phase::Live {
        lemma_live::<R, O>(p, d, now_ms, f);
    } else {
        lemma_before_absent(p.s.buffer, key);
        lemma_put(p.s.buffer, key, d);
        lemma_put_before(p.s.buffer, key, d);
        lemma_put_entries(p.s.buffer, key, d);
    }
    if tail.len() > 0 {
        assert(tail[0] == rest[1]);
        assert(key_lt(rest[0].0, rest[1].0));
        lemma_before_trans(p.s.buffer, rest[0].0, rest[1].0);
        lemma_before_trans(p.s.pending, rest[0].0, rest[1].0);
        assert(all_before(q.s.buffer, tail[0].0));
    }
}

proof fn lemma_feed<R: SeqRule, O: BookObserver>(
    p: Progress<R, O::State>,
    rest: Seq<((u64, u64), DepthDiff)>,
    now_ms: u64,
    f: spec_fn((u64, u64), DepthDiff) -> bool,
)
    requires
        feedable(p.s, rest, f),
    ensures
        ({
            let q = feed_next::<R, O>(p, rest, now_ms);
            &&& orderly(q.s)
            &&& stored(q.s, f)
            &&& balance(p.s) + rest.len() <= u64::MAX ==> balance(q.s) == balance(p.s) + rest.len()
            &&& q.s.stats.diffs_rx == p.s.stats.diffs_rx
        }),
    decreases rest.len(),
{
    if rest.len() > 0 {
        lemma_feed_step::<R, O>(p, rest, now_ms, f);
        lemma_feed::<R, O>(
            fed::<R, O>(p, rest[0].0, rest[0].1, now_ms),
            rest.skip(1),
            now_ms,
            f,
        );
    }
}

proof fn lemma_before_trans<V>(s: Seq<((u64, u64), V)>, a: (u64, u64), b: (u64, u64))
    requires
        all_before(s, a),
        key_lt(a, b),
    ensures
        all_before(s, b),
{
    assert forall|i: int| 0 <= i < s.len() implies key_lt(#[trigger] s[i].0, b) by {
        assert(key_lt(s[i].0, a));
    }
}

/// The state with the snapshot installed and its bridging diff applied.
pub open spec fn bridged<R: SeqRule, O: BookObserver>(
    p: Progress<R, O::State>,
    now_ms: u64,
) -> Progress<R, O::State> {
    let a = apply_next::<R, O>(rebuilt::<R, O>(p), p.s.buffer[0].1, now_ms);
    Progress { s: SyncState { buffer: Seq::empty(), ..a.s }, ..a }
}

/// Where the bridge does not cross the book, the rest of the buffer is feedable.
pub proof fn lemma_bridged<R: SeqRule, O: BookObserver>(
    p: Progress<R, O::State>,
    now_ms: u64,
    f: spec_fn((u64, u64), DepthDiff) -> bool,
)
    requires
        p.s.phase == Phase::Syncing,
        orderly(p.s),
        stored(p.s, own_key()),
        stored(p.s, f),
        p.s.buffer.len() > 0,
    ensures
        ({
            let first = p.s.buffer[0].1;
            let q = rebuilt::<R, O>(p);
            let a = apply_next::<R, O>(q, first, now_ms);
            let b = bridged::<R, O>(p, now_ms);
            &&& cross_resyncs(absorb_diff::<R, O>(q, first).s) ==> {
                &&& install_next::<R, O>(p, now_ms) == a
                &&& orderly(a.s)
                &&& stored(a.s, f)
                &&& balance(p.s) <= u64::MAX ==> balance(a.s) == balance(p.s)
                &&& a.s.stats.diffs_rx == p.s.stats.diffs_rx
            }
            &&& !cross_resyncs(absorb_diff::<R, O>(q, first).s) ==> {
                &&& install_next::<R, O>(p, now_ms) == feed_next::<R, O>(
                    b,
                    p.s.buffer.skip(1),
                    now_ms,
                )
                &&& feedable(b.s, p.s.buffer.skip(1), f)
                &&& balance(p.s) <= u64::MAX ==> balance(b.s) + p.s.buffer.skip(1).len() == balance(
                    p.s,
                )
                &&& b.s.stats.diffs_rx == p.s.stats.diffs_rx
            }
        }),
{
    let first = p.s.buffer[0].1;
    let q = rebuilt::<R, O>(p);
    lemma_skip_sorted(p.s.buffer);
    assert forall|i: int| 0 <= i < q.s.buffer.len() implies f(
        (#[trigger] q.s.buffer[i]).0,
        q.s.buffer[i].1,
    ) by {
        assert(q.s.buffer[i] == p.s.buffer[i + 1]);
    }
    lemma_apply::<R, O>(q, first, now_ms, f);
    let a = apply_next::<R, O>(q, first, now_ms);
    if !cross_resyncs(absorb_diff::<R, O>(q, first).s) {
        assert forall|i: int| 0 <= i < a.s.buffer.len() implies (#[trigger] a.s.buffer[i]).0 == (
            a.s.buffer[i].1.first_id,
            a.s.buffer[i].1.last_id,
        ) && f(a.s.buffer[i].0, a.s.buffer[i].1) by {
            assert(a.s.buffer[i] == p.s.buffer[i + 1]);
            assert(own_key()(p.s.buffer[i + 1].0, p.s.buffer[i + 1].1));
        }
    }
}

proof fn lemma_install<R: SeqRule, O: BookObserver>(
    p: Progress<R, O::State>,
    now_ms: u64,
    f: spec_fn((u64, u64), DepthDiff) -> bool,
)
    requires
        p.s.phase == Phase::Syncing,
        orderly(p.s),
        stored(p.s, own_key()),
        stored(p.s, f),
        p.s.buffer.len() > 0,
    ensures
        ({
            let q = install_next::<R, O>(p, now_ms);
            &&& orderly(q.s)
            &&& stored(q.s, f)
            &&& balance(p.s) <= u64::MAX ==> balance(q.s) == balance(p.s)
            &&& q.s.stats.diffs_rx == p.s.stats.diffs_rx
        }),
{
    lemma_bridged::<R, O>(p, now_ms, f);
    let q = rebuilt::<R, O>(p);
    if !cross_resyncs(absorb_diff::<R, O>(q, p.s.buffer[0].1).s) {
        lemma_feed::<R, O>(bridged::<R, O>(p, now_ms), p.s.buffer.skip(1), now_ms, f);
    }
}

proof fn lemma_seek<R: SeqRule, O: BookObserver>(
    p: Progress<R, O::State>,
    now_ms: u64,
    f: spec_fn((u64, u64), DepthDiff) -> bool,
)
    requires
        p.s.phase == Phase::Syncing,
        orderly(p.s),
        stored(p.s, own_key()),
        stored(p.s, f),
    ensures
        ({
            let q = seek_next::<R, O>(p, now_ms);
            &&& orderly(q.s)
            &&& stored(q.s, f)
            &&& balance(p.s) <= u64::MAX ==> balance(q.s) == balance(p.s)
            &&& q.s.stats.diffs_rx == p.s.stats.diffs_rx
        }),
    decreases p.s.buffer.len(),
{
    if p.s.buffer.len() > 0 {
        let (key, d) = p.s.buffer[0];
        let snap_id = (p.s.held->0).last_update_id;
        match p.s.rule.bridges(key.0, key.1, d.prev_last_id, snap_id) {
            Class::Stale => {
                lemma_skip_sorted(p.s.buffer);
                let q = Progress {
                    s: SyncState {
                        buffer: p.s.buffer.skip(1),
                        stats: StatsView { pre_snapshot: inc(p.s.stats.pre_snapshot), ..p.s.stats },
                        ..p.s
                    },
                    ..p
                };
                lemma_skip_stored(p.s, q.s, own_key());
                lemma_skip_stored(p.s, q.s, f);
                lemma_seek::<R, O>(q, now_ms, f);
            },
            Class::Next => {
                lemma_install::<R, O>(p, now_ms, f);
            },
            Class::Ahead => {},
            Class::Invalid => {},
        }
    }
}

pub proof fn lemma_skip_stored<R, S>(
    s: SyncState<R, S>,
    t: SyncState<R, S>,
    f: spec_fn((u64, u64), DepthDiff) -> bool,
)
    requires
        stored(s, f),
        s.buffer.len() > 0,
        t.buffer == s.buffer.skip(1),
        t.pending == s.pending,
    ensures
        stored(t, f),
{
    assert forall|i: int| 0 <= i < t.buffer.len() implies f(
        (#[trigger] t.buffer[i]).0,
        t.buffer[i].1,
    ) by {
        assert(t.buffer[i] == s.buffer[i + 1]);
    }
}

pub proof fn lemma_trimmed<R, S>(s: SyncState<R, S>, f: spec_fn((u64, u64), DepthDiff) -> bool)
    requires
        stored(s, f),
        orderly(s),
    ensures
        orderly(trimmed(s)),
        balance(s) <= u64::MAX ==> balance(trimmed(s)) == balance(s),
        trimmed(s).stats.diffs_rx == s.stats.diffs_rx,
        trimmed(s).phase == s.phase,
        stored(trimmed(s), f),
        trimmed(s).held == s.held,
    decreases s.buffer.len(),
{
    if s.buffer.len() > s.cfg.max_buffer {
        lemma_skip_sorted(s.buffer);
        let t = SyncState {
            buffer: s.buffer.skip(1),
            stats: StatsView { buffer_dropped: inc(s.stats.buffer_dropped), ..s.stats },
            ..s
        };
        lemma_skip_stored(s, t, f);
        lemma_trimmed(t, f);
    }
}


/// The book and its stores are in order, every diff stands under its own ids and
/// satisfies `f`.
pub open spec fn tidy<R, S>(
    s: SyncState<R, S>,
    f: spec_fn((u64, u64), DepthDiff) -> bool,
) -> bool {
    orderly(s) && stored(s, own_key()) && stored(s, f)
}

proof fn lemma_try_install<R: SeqRule, O: BookObserver>(
    p: Progress<R, O::State>,
    now_ms: u64,
    f: spec_fn((u64, u64), DepthDiff) -> bool,
)
    requires
        p.s.phase == Phase::Syncing,
        tidy(p.s, f),
    ensures
        ({
            let q = try_install_next::<R, O>(p, now_ms);
            &&& tidy(q.s, f)
            &&& balance(p.s) <= u64::MAX ==> balance(q.s) == balance(p.s)
            &&& q.s.stats.diffs_rx == p.s.stats.diffs_rx
        }),
{
    if p.s.held is Some && p.s.buffer.len() > 0 {
        lemma_seek::<R, O>(p, now_ms, f);
        lemma_seek::<R, O>(p, now_ms, own_key());
    }
}

/// A diff keeps the stores tidy and adds one to what is accounted for.
pub proof fn lemma_on_diff<R: SeqRule, O: BookObserver>(
    s: SyncState<R, O::State>,
    d: DepthDiff,
    now_ms: u64,
    f: spec_fn((u64, u64), DepthDiff) -> bool,
)
    requires
        tidy(s, f),
        f((d.first_id, d.last_id), d),
    ensures
        on_diff_next::<R, O>(s, d, now_ms).s.stats.diffs_rx == inc(s.stats.diffs_rx),
        tidy(on_diff_next::<R, O>(s, d, now_ms).s, f),
        accounted(s) && s.stats.diffs_rx < u64::MAX ==> accounted(on_diff_next::<R, O>(s, d, now_ms).s),
{
    let s1 = SyncState { stats: StatsView { diffs_rx: inc(s.stats.diffs_rx), ..s.stats }, ..s };
    assert(own_key()((d.first_id, d.last_id), d));
    match s1.phase {
        Phase::Live => {
            lemma_live::<R, O>(Progress { s: s1, st: Step::none() }, d, now_ms, f);
            lemma_live::<R, O>(Progress { s: s1, st: Step::none() }, d, now_ms, own_key());
        },
        Phase::Syncing => {
            let key = (d.first_id, d.last_id);
            if !holds(s1.buffer, key) {
                let s2 = SyncState { buffer: put(s1.buffer, key, d), ..s1 };
                lemma_put(s1.buffer, key, d);
                lemma_put_entries(s1.buffer, key, d);
                lemma_trimmed(s2, f);
                lemma_trimmed(s2, own_key());
            }
            let p = Progress { s: gathered(s1, d), st: Step::none() };
            lemma_try_install::<R, O>(p, now_ms, f);
        },
    }
}

/// A snapshot keeps the stores tidy and the account balanced.
pub proof fn lemma_on_snapshot<R: SeqRule, O: BookObserver>(
    s: SyncState<R, O::State>,
    snap: DepthSnapshot,
    now_ms: u64,
    f: spec_fn((u64, u64), DepthDiff) -> bool,
)
    requires
        tidy(s, f),
    ensures
        on_snapshot_next::<R, O>(s, snap, now_ms).s.stats.diffs_rx == s.stats.diffs_rx,
        tidy(on_snapshot_next::<R, O>(s, snap, now_ms).s, f),
        accounted(s) ==> accounted(on_snapshot_next::<R, O>(s, snap, now_ms).s),
{
    let s1 = SyncState {
        held: Some(snap),
        snapshot_req_at: None,
        stats: StatsView { snapshots_rx: inc(s.stats.snapshots_rx), ..s.stats },
        ..s
    };
    if s.phase == Phase::Syncing {
        lemma_try_install::<R, O>(Progress { s: s1, st: Step::none() }, now_ms, f);
    }
}

/// A pulse of the clock keeps the stores tidy and the account balanced.
pub proof fn lemma_on_tick<R: SeqRule, O: BookObserver>(
    s: SyncState<R, O::State>,
    now_ms: u64,
    f: spec_fn((u64, u64), DepthDiff) -> bool,
)
    requires
        tidy(s, f),
    ensures
        on_tick_next::<R, O>(s, now_ms).s.stats.diffs_rx == s.stats.diffs_rx,
        tidy(on_tick_next::<R, O>(s, now_ms).s, f),
        accounted(s) ==> accounted(on_tick_next::<R, O>(s, now_ms).s),
{
    let p = Progress { s, st: Step::none() };
    lemma_resync::<R, O>(p, ResyncReason::GapTimeout, now_ms, f);
    lemma_resync::<R, O>(p, ResyncReason::GapTimeout, now_ms, own_key());
}

/// A forced resync keeps the stores tidy and the account balanced.
pub proof fn lemma_force_resync<R: SeqRule, O: BookObserver>(
    s: SyncState<R, O::State>,
    now_ms: u64,
    f: spec_fn((u64, u64), DepthDiff) -> bool,
)
    requires
        tidy(s, f),
    ensures
        force_resync_next::<R, O>(s, now_ms).s.stats.diffs_rx == s.stats.diffs_rx,
        tidy(force_resync_next::<R, O>(s, now_ms).s, f),
        accounted(s) ==> accounted(force_resync_next::<R, O>(s, now_ms).s),
{
    let p = Progress { s, st: Step::none() };
    lemma_resync::<R, O>(p, ResyncReason::Manual, now_ms, f);
    lemma_resync::<R, O>(p, ResyncReason::Manual, now_ms, own_key());
}

/// One input of the machine, with the time at which it comes.
pub enum Input {
    /// A diff of any line.
    Diff(DepthDiff, u64),
    /// A snapshot.
    Snapshot(DepthSnapshot, u64),
    /// A pulse of the clock.
    Tick(u64),
    /// A forced resync.
    Force(u64),
}

/// The machine takes one input.
#[verifier::opaque]
pub open spec fn take<R: SeqRule, O: BookObserver>(
    s: SyncState<R, O::State>,
    i: Input,
) -> Progress<R, O::State> {
    match i {
        Input::Diff(d, t) => on_diff_next::<R, O>(s, d, t),
        Input::Snapshot(snap, t) => on_snapshot_next::<R, O>(s, snap, t),
        Input::Tick(t) => on_tick_next::<R, O>(s, t),
        Input::Force(t) => force_resync_next::<R, O>(s, t),
    }
}

/// The state after a whole sequence of inputs.
pub open spec fn run<R: SeqRule, O: BookObserver>(
    s: SyncState<R, O::State>,
    inputs: Seq<Input>,
) -> SyncState<R, O::State>
    decreases inputs.len(),
{
    if inputs.len() == 0 {
        s
    } else {
        take::<R, O>(run::<R, O>(s, inputs.drop_last()), inputs.last()).s
    }
}

/// A diff of any kind.
pub open spec fn any_diff() -> spec_fn((u64, u64), DepthDiff) -> bool {
    |k: (u64, u64), d: DepthDiff| true
}

/// Conservation: whatever the inputs, every diff received is accounted for
/// exactly once (while fewer than `u64::MAX` have come), so that
/// [`crate::sync::SyncBook::unaccounted`] is zero after every one of them.
pub proof fn law_conservation<R: SeqRule, O: BookObserver>(
    rule: R,
    cfg: SyncConfig,
    obs: O::State,
    inputs: Seq<Input>,
)
    requires
        inputs.len() < u64::MAX,
    ensures
        accounted(run::<R, O>(start(rule, cfg, obs), inputs)),
        tidy(run::<R, O>(start(rule, cfg, obs), inputs), any_diff()),
        run::<R, O>(start(rule, cfg, obs), inputs).stats.diffs_rx <= inputs.len(),
    decreases inputs.len(),
{
    if inputs.len() > 0 {
        let t = inputs.drop_last();
        law_conservation::<R, O>(rule, cfg, obs, t);
        let s = run::<R, O>(start(rule, cfg, obs), t);
        lemma_take::<R, O>(s, inputs.last(), any_diff());
    }
}

/// One input keeps the stores tidy and the account balanced.
pub proof fn lemma_take<R: SeqRule, O: BookObserver>(
    s: SyncState<R, O::State>,
    i: Input,
    f: spec_fn((u64, u64), DepthDiff) -> bool,
)
    requires
        tidy(s, f),
        i matches Input::Diff(d, t) ==> f((d.first_id, d.last_id), d),
    ensures
        tidy(take::<R, O>(s, i).s, f),
        accounted(s) && s.stats.diffs_rx < u64::MAX ==> accounted(take::<R, O>(s, i).s),
        take::<R, O>(s, i).s.stats.diffs_rx <= s.stats.diffs_rx + 1,
{
    reveal(take);
    match i {
        Input::Diff(d, now) => {
            lemma_on_diff::<R, O>(s, d, now, f);
        },
        Input::Snapshot(snap, now) => {
            lemma_on_snapshot::<R, O>(s, snap, now, f);
        },
        Input::Tick(now) => {
            lemma_on_tick::<R, O>(s, now, f);
        },
        Input::Force(now) => {
            lemma_force_resync::<R, O>(s, now, f);
        },
    }
}

} // verus!

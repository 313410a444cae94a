//! What the consumer of flows is told of the batches: each once, in order, without
//! a gap, up to the time that is final.

use crate::align::{
    align_start, batched, by_timeout, by_trades, close_next, evicted, fed_flows, flows_of,
    forced_next, lemma_close, lemma_pruned, marked, overflowed, ready_next, rec_of, unpruned,
    AlignState, AlignerConfig, AlignerStats, BatchInfo, FlowSink, LevelFlow,
};
use crate::book::BookState;
use crate::event::DepthDiff;
use crate::flow_laws::{flow_run, flow_take, FlowInput};
use crate::num::clamp_u64;
use crate::ordmap::{holds, put};
use crate::sync::{inc, ResyncReason};
use vstd::prelude::*;

verus! {

/// `log` reads from the state of a consumer the batches that it was told of since
/// the last rebuild.
pub open spec fn logs_batches<K: FlowSink>(log: spec_fn(K::State) -> Seq<BatchInfo>) -> bool {
    &&& forall|o: K::State, b: BatchInfo| log(#[trigger] K::batch_next(o, b)) == log(o).push(b)
    &&& forall|o: K::State, f: LevelFlow| log(#[trigger] K::flow_next(o, f)) == log(o)
    &&& forall|o: K::State, epoch: u64, book: BookState|
        log(#[trigger] K::rebuild_next(o, epoch, book)).len() == 0
    &&& forall|o: K::State, epoch: u64, reason: ResyncReason|
        log(#[trigger] K::invalidate_next(o, epoch, reason)) == log(o)
}

/// The batches told start at zero, each where the one before it ended, and what is
/// final ends with the last of them.
pub open spec fn recorded<S>(s: AlignState<S>, log: spec_fn(S) -> Seq<BatchInfo>) -> bool {
    let l = log(s.sink);
    &&& s.finalized_until == (if l.len() == 0 {
        0
    } else {
        l.last().end_ts_ms
    })
    &&& l.len() > 0 ==> l[0].start_ts_ms == 0
    &&& forall|i: int| 1 <= i < l.len() ==> (#[trigger] l[i]).start_ts_ms == l[i - 1].end_ts_ms
    &&& forall|i: int| 0 <= i < l.len() ==> (#[trigger] l[i]).start_ts_ms <= l[i].end_ts_ms
}

/// Nothing told is taken back, and what is final stays final.
pub open spec fn grown<S>(
    s: AlignState<S>,
    t: AlignState<S>,
    log: spec_fn(S) -> Seq<BatchInfo>,
) -> bool {
    &&& log(s.sink).is_prefix_of(log(t.sink))
    &&& s.finalized_until <= t.finalized_until
}

/// The open batches follow each other and what is final.
pub open spec fn joined<S>(s: AlignState<S>) -> bool {
    &&& forall|i: int|
        1 <= i < s.batches.len() ==> (#[trigger] s.batches[i]).start == s.batches[i - 1].end
    &&& forall|i: int| 0 <= i < s.batches.len() ==> (#[trigger] s.batches[i]).start
        <= s.batches[i].end
    &&& s.batches.len() > 0 ==> s.batches[0].start == s.finalized_until && s.last_end
        == s.batches.last().end
    &&& s.live && s.batches.len() == 0 ==> s.last_end == s.finalized_until
}

proof fn lemma_flows_silent<K: FlowSink>(
    o: K::State,
    flows: Seq<LevelFlow>,
    log: spec_fn(K::State) -> Seq<BatchInfo>,
)
    requires
        logs_batches::<K>(log),
    ensures
        log(fed_flows::<K>(o, flows)) == log(o),
    decreases flows.len(),
{
    if flows.len() > 0 {
        lemma_flows_silent::<K>(o, flows.drop_last(), log);
    }
}

proof fn lemma_prefix<T>(a: Seq<T>, b: Seq<T>, c: Seq<T>)
    requires
        a.is_prefix_of(b),
        b.is_prefix_of(c),
    ensures
        a.is_prefix_of(c),
{
    assert(a =~= c.subrange(0, a.len() as int)) by {
        assert forall|i: int| 0 <= i < a.len() implies a[i] == c[i] by {
            assert(a[i] == b.subrange(0, a.len() as int)[i]);
            assert(b[i] == c.subrange(0, b.len() as int)[i]);
        }
    }
}

proof fn lemma_close_told<K: FlowSink>(
    s: AlignState<K::State>,
    log: spec_fn(K::State) -> Seq<BatchInfo>,
)
    requires
        logs_batches::<K>(log),
        joined(s),
        recorded(s, log),
        s.batches.len() > 0,
    ensures
        joined(close_next::<K>(s)),
        recorded(close_next::<K>(s), log),
        grown(s, close_next::<K>(s), log),
{
    let u = unpruned::<K>(s);
    let t = close_next::<K>(s);
    let b = s.batches[0];
    lemma_pruned(u);
    lemma_flows_silent::<K>(s.sink, flows_of(AlignState { batches: s.batches.skip(1), ..s }, b), log);
    let l = log(s.sink);
    let m = log(t.sink);
    assert(m.len() == l.len() + 1);
    assert(m.drop_last() =~= l);
    assert(m.last().start_ts_ms == b.start && m.last().end_ts_ms == b.end);
    assert forall|i: int| 0 <= i < l.len() implies m[i] == l[i] by {
        assert(m.drop_last()[i] == l[i]);
    }
    assert(l =~= m.subrange(0, l.len() as int));
    assert forall|i: int| 1 <= i < t.batches.len() implies (#[trigger] t.batches[i]).start
        == t.batches[i - 1].end by {
        assert(t.batches[i] == s.batches[i + 1]);
        assert(t.batches[i - 1] == s.batches[i]);
    }
    assert forall|i: int| 0 <= i < t.batches.len() implies (#[trigger] t.batches[i]).start
        <= t.batches[i].end by {
        assert(t.batches[i] == s.batches[i + 1]);
    }
    if t.batches.len() > 0 {
        assert(t.batches[0] == s.batches[1]);
    }
}

proof fn lemma_ready_told<K: FlowSink>(
    s: AlignState<K::State>,
    log: spec_fn(K::State) -> Seq<BatchInfo>,
)
    requires
        logs_batches::<K>(log),
        joined(s),
        recorded(s, log),
    ensures
        joined(ready_next::<K>(s)),
        recorded(ready_next::<K>(s), log),
        grown(s, ready_next::<K>(s), log),
    decreases s.batches.len(),
{
    assert(log(s.sink) =~= log(s.sink).subrange(0, log(s.sink).len() as int));
    if s.batches.len() >= 2 && (by_trades(s) || by_timeout(s)) {
        let c = if by_trades(s) {
            AlignerStats { closed_by_trades: inc(s.stats.closed_by_trades), ..s.stats }
        } else {
            AlignerStats { closed_by_timeout: inc(s.stats.closed_by_timeout), ..s.stats }
        };
        let t = AlignState { stats: c, ..s };
        lemma_close_told::<K>(t, log);
        lemma_close::<K>(t);
        lemma_ready_told::<K>(close_next::<K>(t), log);
        lemma_prefix(
            log(s.sink),
            log(close_next::<K>(t).sink),
            log(ready_next::<K>(s).sink),
        );
    }
}

proof fn lemma_forced_told<K: FlowSink>(
    s: AlignState<K::State>,
    log: spec_fn(K::State) -> Seq<BatchInfo>,
)
    requires
        logs_batches::<K>(log),
        joined(s),
        recorded(s, log),
    ensures
        joined(forced_next::<K>(s)),
        recorded(forced_next::<K>(s), log),
        grown(s, forced_next::<K>(s), log),
    decreases s.batches.len(),
{
    assert(log(s.sink) =~= log(s.sink).subrange(0, log(s.sink).len() as int));
    if s.batches.len() > s.cfg.max_open_batches {
        let t = AlignState {
            stats: AlignerStats { closed_forced: inc(s.stats.closed_forced), ..s.stats },
            ..s
        };
        lemma_close_told::<K>(t, log);
        lemma_close::<K>(t);
        lemma_forced_told::<K>(close_next::<K>(t), log);
        lemma_prefix(
            log(s.sink),
            log(close_next::<K>(t).sink),
            log(forced_next::<K>(s).sink),
        );
    }
}

proof fn lemma_evicted_told<S>(s: AlignState<S>)
    requires
        joined(s),
    ensures
        joined(evicted(s)),
        evicted(s).sink == s.sink,
        evicted(s).finalized_until == s.finalized_until,
        evicted(s).last_end == s.last_end,
        evicted(s).live == s.live,
    decreases s.trades.len(),
{
    if s.trades.len() > s.cfg.max_trades {
        let rest = AlignState { trades: s.trades.skip(1), ..s };
        if s.trades[0].1.counted {
            lemma_evicted_told(rest);
        } else {
            let t = AlignState {
                uncounted: clamp_u64(s.uncounted - 1) as u64,
                batches: overflowed(s.batches),
                stats: AlignerStats { overflow: inc(s.stats.overflow), ..s.stats },
                ..rest
            };
            assert forall|i: int| 0 <= i < t.batches.len() implies (#[trigger] t.batches[i]).start
                == s.batches[i].start && t.batches[i].end == s.batches[i].end by {
            }
            assert(joined(t));
            lemma_evicted_told(t);
        }
    }
}

proof fn lemma_batched_joined<S>(s: AlignState<S>, d: DepthDiff)
    requires
        joined(s),
        s.live,
    ensures
        joined(batched(s, d)),
{
    let t = batched(s, d);
    let n = s.batches.len() as int;
    assert forall|i: int| 1 <= i < t.batches.len() implies (#[trigger] t.batches[i]).start
        == t.batches[i - 1].end by {
        if i < n {
            assert(s.batches[i].start == s.batches[i - 1].end);
        }
    }
    assert forall|i: int| 0 <= i < t.batches.len() implies (#[trigger] t.batches[i]).start
        <= t.batches[i].end by {
        if i < n {
            assert(s.batches[i].start <= s.batches[i].end);
        }
    }
}

/// What is final is the end of the last batch told, it never goes back, and no
/// batch told is taken back, until the book is rebuilt: then nothing has been told
/// and nothing is final.
pub proof fn law_what_is_final_stays_final<K: FlowSink>(
    s: AlignState<K::State>,
    i: FlowInput,
    log: spec_fn(K::State) -> Seq<BatchInfo>,
)
    requires
        logs_batches::<K>(log),
        joined(s),
        recorded(s, log),
    ensures
        joined(flow_take::<K>(s, i)),
        recorded(flow_take::<K>(s, i), log),
        i is Rebuild ==> log(flow_take::<K>(s, i).sink).len() == 0 && flow_take::<K>(
            s,
            i,
        ).finalized_until == 0,
        !(i is Rebuild) ==> grown(s, flow_take::<K>(s, i), log),
{
    let l = log(s.sink);
    assert(l =~= l.subrange(0, l.len() as int));
    match i {
        FlowInput::Trade(t) => {
            let c = AlignerStats { trades_rx: inc(s.stats.trades_rx), ..s.stats };
            let ts = t.trade_ts_ms;
            let d = s.cfg.boundary_slack_ms;
            let m = AlignState { lines: marked(s.lines, t.rx.line, t.exch_ts_ms), stats: c, ..s };
            if s.live && !(m.finalized_until > 0 && ts <= m.finalized_until) && !holds(
                m.trades,
                (ts, t.agg_id),
            ) {
                let c1 = if d > 0 && m.finalized_until > 0 && ts <= m.finalized_until + d {
                    AlignerStats { late_ambiguous: inc(c.late_ambiguous), ..c }
                } else {
                    c
                };
                let u = AlignState {
                    trades: put(m.trades, (ts, t.agg_id), rec_of(t)),
                    uncounted: inc(m.uncounted),
                    stats: c1,
                    ..m
                };
                assert(joined(u));
                lemma_evicted_told(u);
                lemma_ready_told::<K>(evicted(u), log);
            }
        },
        FlowInput::Line(n, ts) => {
            if s.live {
                let m = AlignState { lines: marked(s.lines, n, ts), ..s };
                assert(joined(m));
                lemma_ready_told::<K>(m, log);
            }
        },
        FlowInput::Level(side, px, prev, new) => {},
        FlowInput::Diff(d) => {
            if s.live {
                let t = batched(s, d);
                lemma_batched_joined(s, d);
                lemma_forced_told::<K>(t, log);
                lemma_ready_told::<K>(forced_next::<K>(t), log);
                lemma_prefix(
                    l,
                    log(forced_next::<K>(t).sink),
                    log(ready_next::<K>(forced_next::<K>(t)).sink),
                );
            }
        },
        FlowInput::Rebuild(e, b) => {},
        FlowInput::Invalidate(e, r) => {},
    }
}

/// After any inputs, the batches told since the last rebuild start at zero
/// and follow each other without a gap or an overlap, and what is final is the end
/// of the last one (zero where none was told).
pub proof fn law_batches_are_told_in_order<K: FlowSink>(
    cfg: AlignerConfig,
    sink: K::State,
    inputs: Seq<FlowInput>,
    log: spec_fn(K::State) -> Seq<BatchInfo>,
)
    requires
        logs_batches::<K>(log),
        log(sink).len() == 0,
    ensures
        joined(flow_run::<K>(align_start(cfg, sink), inputs)),
        recorded(flow_run::<K>(align_start(cfg, sink), inputs), log),
    decreases inputs.len(),
{
    if inputs.len() > 0 {
        let t = inputs.drop_last();
        law_batches_are_told_in_order::<K>(cfg, sink, t, log);
        law_what_is_final_stays_final::<K>(
            flow_run::<K>(align_start(cfg, sink), t),
            inputs.last(),
            log,
        );
    }
}

} // verus!

//! What holds of every wall that the detector reports.

use crate::align::BatchInfo;
use crate::event::Side;
use crate::footprint::{
    acc_at, average, batch_start, batch_touch, fell, gap_of, judged, metrics_start, mid_bucket,
    new_window, partial, percentile, position_from, process_next, side_areas, tdiv, verdict,
    wall_next, walls_next, walls_with, MetricsConfig, MetricsState, Touch, Verdict, WallRetired,
    WallStats, Window,
};
use crate::num::{clamp_i64, clamp_u64};
use crate::ordmap::{find, lemma_del, lemma_put, put, sorted};
use crate::twa_laws::{metrics_run, MetricsInput};
use vstd::prelude::*;

verus! {

/// What a reported wall owes: its bucket dropped since the window opened, executions
/// explain less than the given share of the drop, it stood near the mid price, and its
/// TWA reached the percentile.
pub open spec fn deserved(cfg: MetricsConfig, w: WallRetired) -> bool {
    &&& w.qty.0 < w.start_qty.0
    &&& w.executed.0 * 100 < cfg.wall.max_exec_pct * (w.start_qty.0 - w.qty.0)
    &&& w.distance <= cfg.wall.max_distance
    &&& w.percentile_twa.0 <= w.twa.0
}

/// Every verdict was counted once: each evaluation fired or was rejected for one
/// reason.
pub open spec fn counted(c: WallStats) -> bool {
    c.evaluated < u64::MAX ==> c.evaluated == c.fired + c.rejected_contaminated
        + c.rejected_coverage + c.rejected_no_mid + c.rejected_percentile + c.rejected_distance
        + c.rejected_exec
}

/// What holds of the detector at every instant.
pub open spec fn walls_sound(s: MetricsState) -> bool {
    &&& forall|i: int| 0 <= i < s.walls.len() ==> deserved(s.cfg, #[trigger] s.walls[i])
    &&& counted(s.wall_stats)
}

proof fn lemma_tdiv_ordered(a: int, b: int, d: int)
    requires
        a <= b,
        d > 0,
    ensures
        tdiv(a, d) <= tdiv(b, d),
{
    if a >= 0 {
        vstd::arithmetic::div_mod::lemma_div_is_ordered(a, b, d);
    } else if b < 0 {
        vstd::arithmetic::div_mod::lemma_div_is_ordered(-b, -a, d);
    } else {
        vstd::arithmetic::div_mod::lemma_div_pos_is_pos(-a, d);
        vstd::arithmetic::div_mod::lemma_div_pos_is_pos(b, d);
    }
}

proof fn lemma_wall_next(
    s: MetricsState,
    wi: int,
    key: (Side, i64),
    t: Touch,
    clean: bool,
    ts: u64,
    mid: Option<i64>,
)
    requires
        walls_sound(s),
    ensures
        walls_sound(wall_next(s, wi, key, t, clean, ts, mid)),
        wall_next(s, wi, key, t, clean, ts, mid).cfg == s.cfg,
{
    let n = wall_next(s, wi, key, t, clean, ts, mid);
    let obs = s.tracks[wi].cur.observed_at(ts);
    assert forall|i: int| 0 <= i < n.walls.len() implies deserved(s.cfg, #[trigger] n.walls[i]) by {
        if n.walls != s.walls && i == n.walls.len() - 1 {
            let w = n.walls[i];
            assert forall|a: i128, b: i128| a <= b && obs > 0 implies #[trigger] average(a, obs)
                <= #[trigger] average(b, obs) by {
                lemma_tdiv_ordered(a as int, b as int, obs as int);
            }
        } else if n.walls.len() > 0 {
            if s.walls.len() > 0 && n.walls.len() == s.walls.len() && n.walls != s.walls {
                assert(n.walls[i] == s.walls[i + 1]);
            } else {
                assert(n.walls[i] == s.walls[i]);
            }
        }
    }
}

proof fn lemma_walls_next(
    s: MetricsState,
    wi: int,
    keys: Seq<((Side, i64), Touch)>,
    clean: bool,
    ts: u64,
    mid: Option<i64>,
)
    requires
        walls_sound(s),
    ensures
        walls_sound(walls_next(s, wi, keys, clean, ts, mid)),
        walls_next(s, wi, keys, clean, ts, mid).cfg == s.cfg,
    decreases keys.len(),
{
    if keys.len() > 0 {
        lemma_walls_next(s, wi, keys.drop_last(), clean, ts, mid);
        let t = walls_next(s, wi, keys.drop_last(), clean, ts, mid);
        lemma_wall_next(t, wi, keys.last().0, keys.last().1, clean, ts, mid);
    }
}

proof fn lemma_batch_walls(s: MetricsState, b: BatchInfo)
    requires
        walls_sound(s),
    ensures
        walls_sound(process_next(s, b)),
        process_next(s, b).cfg == s.cfg,
{
    if s.live {
        let p = batch_start(s, b);
        let t = batch_touch(p, s.batch);
        let q = MetricsState {
            bids: t.bids,
            asks: t.asks,
            bid_buckets: t.bid_buckets,
            ask_buckets: t.ask_buckets,
            ..p
        };
        match position_from(s.cfg.timeframes_ms@, s.cfg.wall_tf_ms, 0) {
            Some(wi) => {
                lemma_walls_next(
                    q,
                    wi,
                    t.keys,
                    b.contaminated is None,
                    b.end_ts_ms,
                    mid_bucket(q),
                );
            },
            None => {},
        }
    }
}

/// Every wall reported, after any inputs, met the detector's conditions; and every
/// evaluation was counted once, as fired or under the one reason of its rejection.
pub proof fn law_walls_deserved(cfg: MetricsConfig, inputs: Seq<MetricsInput>)
    ensures
        walls_sound(metrics_run(metrics_start(cfg), inputs).0),
        metrics_run(metrics_start(cfg), inputs).0.cfg == cfg,
    decreases inputs.len(),
{
    if inputs.len() > 0 {
        law_walls_deserved(cfg, inputs.drop_last());
        let m = metrics_run(metrics_start(cfg), inputs.drop_last()).0;
        match inputs.last() {
            MetricsInput::Batch { b } => {
                lemma_batch_walls(m, b);
            },
            _ => {},
        }
    }
}

/// The area of a bucket in the candle in progress, up to `ts`.
pub open spec fn area_at(s: MetricsState, wi: int, key: (Side, i64), ts: u64) -> i128 {
    let c = s.tracks[wi].cur;
    match find(c.cells, key) {
        Some(cell) => acc_at(cell, ts, c.live_since is Some),
        None => 0,
    }
}

/// The window in which a touch of a bucket falls: a new one where the bucket stood at
/// its average or above it just before, or else the one already open.
pub open spec fn window_of(
    s: MetricsState,
    wi: int,
    key: (Side, i64),
    t: Touch,
    ts: u64,
) -> Option<Window> {
    if t.prev * s.tracks[wi].cur.observed_at(ts) >= area_at(s, wi, key, ts) {
        Some(new_window(ts, t.prev))
    } else {
        find(s.windows, key)
    }
}

/// A wall is reported only at the crossing: in a window not evaluated before and
/// without contaminated batches, when the quantity fell under the given share of the
/// bucket's TWA, with a mid price and within the coverage. The window then counts as
/// evaluated.
pub proof fn law_wall_fires_at_the_crossing(
    s: MetricsState,
    wi: int,
    key: (Side, i64),
    t: Touch,
    clean: bool,
    ts: u64,
    mid: Option<i64>,
)
    requires
        sorted(s.windows),
        s.wall_stats.fired < u64::MAX,
        wall_next(s, wi, key, t, clean, ts, mid).wall_stats.fired != s.wall_stats.fired,
    ensures
        clean,
        mid is Some,
        !partial(s, key.0, key.1),
        window_of(s, wi, key, t, ts) matches Some(w) && !w.evaluated && !w.poisoned,
        find(wall_next(s, wi, key, t, clean, ts, mid).windows, key) matches Some(w) && w.evaluated,
        ({
            let obs = s.tracks[wi].cur.observed_at(ts);
            let acc = area_at(s, wi, key, ts);
            &&& obs > 0
            &&& t.new * obs < acc
            &&& fell(t.new, obs, acc, s.cfg.wall.drop_pct)
        }),
{
    lemma_put(s.windows, key, new_window(ts, t.prev));
    let windows = if t.prev * s.tracks[wi].cur.observed_at(ts) >= area_at(s, wi, key, ts) {
        put(s.windows, key, new_window(ts, t.prev))
    } else {
        s.windows
    };
    let n = wall_next(s, wi, key, t, clean, ts, mid);
    if let Some(w) = window_of(s, wi, key, t, ts) {
        lemma_put(
            windows,
            key,
            Window {
                executed: clamp_i64(w.executed + t.executed) as i64,
                poisoned: w.poisoned || !clean,
                evaluated: true,
                ..w
            },
        );
    }
}

/// An evaluation: the state in which a batch touched a bucket, and the touch.
pub struct Trial {
    /// The state before.
    pub s: MetricsState,
    /// The candle of the detector.
    pub wi: int,
    /// The bucket.
    pub key: (Side, i64),
    /// The touch.
    pub touch: Touch,
    /// The batch is not contaminated.
    pub clean: bool,
    /// The end of the batch.
    pub ts: u64,
    /// The bucket of the mid price.
    pub mid: Option<i64>,
}

impl Trial {
    /// The time observed.
    pub open spec fn observed(self) -> u64 {
        self.s.tracks[self.wi].cur.observed_at(self.ts)
    }

    /// The area of the bucket over it.
    pub open spec fn area(self) -> i128 {
        area_at(self.s, self.wi, self.key, self.ts)
    }

    /// The window of the bucket, before the touch counts in it.
    pub open spec fn before(self) -> Option<Window> {
        window_of(self.s, self.wi, self.key, self.touch, self.ts)
    }

    /// The window of the bucket with the touch.
    pub open spec fn window(self) -> Window {
        let w = self.before()->0;
        Window {
            executed: clamp_i64(w.executed + self.touch.executed) as i64,
            poisoned: w.poisoned || !self.clean,
            ..w
        }
    }

    /// The area at the percentile of the side, over the buckets within the coverage.
    pub open spec fn threshold(self) -> i128 {
        let c = self.s.tracks[self.wi].cur;
        percentile(
            side_areas(self.s, c.cells, self.key.0, self.ts, c.live_since is Some),
            self.s.cfg.wall.percentile,
            0,
        )
    }

    /// The quantity crossed: it is under the given share of the average, in a window that
    /// was not evaluated.
    pub open spec fn crosses(self) -> bool {
        &&& self.observed() > 0
        &&& self.touch.new * self.observed() < self.area()
        &&& fell(self.touch.new, self.observed(), self.area(), self.s.cfg.wall.drop_pct)
        &&& self.before() matches Some(w) && !w.evaluated
    }

    /// The wall is retired: no batch of the window was contaminated, the bucket is within
    /// the coverage, there is a mid price and it is near, the average reaches the
    /// percentile, the quantity dropped since the window opened, and executions explain
    /// less than the given share of the drop.
    pub open spec fn retired(self) -> bool {
        let w = self.window();
        let drop = w.start_qty - self.touch.new;
        &&& !w.poisoned
        &&& !partial(self.s, self.key.0, self.key.1)
        &&& self.mid matches Some(m) && gap_of(self.key.1, m) <= self.s.cfg.wall.max_distance
        &&& self.threshold() <= self.area()
        &&& drop > 0
        &&& w.executed * 100 < self.s.cfg.wall.max_exec_pct * drop
    }

    /// The verdict of the detector.
    pub open spec fn verdict(self) -> Verdict {
        verdict(
            self.s,
            self.s.tracks[self.wi].cur,
            self.key,
            self.window(),
            self.touch.new,
            self.area(),
            self.observed(),
            self.ts,
            self.mid,
        )
    }
}

/// What happens to the window of a bucket.
pub enum WindowEvent {
    /// A window opens: the bucket stands at its average or above it.
    Opened((Side, i64)),
    /// The window is evaluated.
    Evaluated(Trial),
    /// The window is dropped: nothing was observed yet.
    Dropped((Side, i64)),
}

impl WindowEvent {
    /// The bucket.
    pub open spec fn key(self) -> (Side, i64) {
        match self {
            WindowEvent::Opened(k) => k,
            WindowEvent::Evaluated(t) => t.key,
            WindowEvent::Dropped(k) => k,
        }
    }
}

/// What a touch of a bucket does to its window.
pub open spec fn touch_events(
    s: MetricsState,
    wi: int,
    key: (Side, i64),
    t: Touch,
    clean: bool,
    ts: u64,
    mid: Option<i64>,
) -> Seq<WindowEvent> {
    let obs = s.tracks[wi].cur.observed_at(ts);
    let acc = area_at(s, wi, key, ts);
    let before = if t.prev * obs >= acc {
        seq![WindowEvent::Opened(key)]
    } else {
        Seq::empty()
    };
    if obs == 0 {
        seq![WindowEvent::Dropped(key)]
    } else if t.new * obs >= acc {
        before.push(WindowEvent::Opened(key))
    } else if window_of(s, wi, key, t, ts) matches Some(w) && !w.evaluated && fell(
        t.new,
        obs,
        acc,
        s.cfg.wall.drop_pct,
    ) {
        before.push(WindowEvent::Evaluated(Trial { s, wi, key, touch: t, clean, ts, mid }))
    } else {
        before
    }
}

/// What the touches of a batch do to the windows, in order.
pub open spec fn touches_events(
    s: MetricsState,
    wi: int,
    keys: Seq<((Side, i64), Touch)>,
    clean: bool,
    ts: u64,
    mid: Option<i64>,
) -> Seq<WindowEvent>
    decreases keys.len(),
{
    if keys.len() == 0 {
        Seq::empty()
    } else {
        let t = walls_next(s, wi, keys.drop_last(), clean, ts, mid);
        touches_events(s, wi, keys.drop_last(), clean, ts, mid) + touch_events(
            t,
            wi,
            keys.last().0,
            keys.last().1,
            clean,
            ts,
            mid,
        )
    }
}

/// The state in which the detector looks at a batch.
pub open spec fn before_walls(s: MetricsState, b: BatchInfo) -> MetricsState {
    let p = batch_start(s, b);
    let t = batch_touch(p, s.batch);
    MetricsState {
        bids: t.bids,
        asks: t.asks,
        bid_buckets: t.bid_buckets,
        ask_buckets: t.ask_buckets,
        ..p
    }
}

/// What an input does to the windows.
pub open spec fn input_events(s: MetricsState, i: MetricsInput) -> Seq<WindowEvent> {
    match i {
        MetricsInput::Batch { b } => {
            let q = before_walls(s, b);
            match position_from(s.cfg.timeframes_ms@, s.cfg.wall_tf_ms, 0) {
                Some(wi) => if s.live && wi < q.tracks.len() {
                    touches_events(
                        q,
                        wi,
                        batch_touch(batch_start(s, b), s.batch).keys,
                        b.contaminated is None,
                        b.end_ts_ms,
                        mid_bucket(q),
                    )
                } else {
                    Seq::empty()
                },
                None => Seq::empty(),
            }
        },
        _ => Seq::empty(),
    }
}

/// What some inputs do to the windows, in order.
pub open spec fn run_events(s: MetricsState, inputs: Seq<MetricsInput>) -> Seq<WindowEvent>
    decreases inputs.len(),
{
    if inputs.len() == 0 {
        Seq::empty()
    } else {
        run_events(s, inputs.drop_last()) + input_events(
            metrics_run(s, inputs.drop_last()).0,
            inputs.last(),
        )
    }
}

/// The last thing that happened to the window of the bucket is that it opened.
pub open spec fn just_opened(log: Seq<WindowEvent>, key: (Side, i64)) -> bool
    decreases log.len(),
{
    log.len() > 0 && if log.last().key() == key {
        log.last() is Opened
    } else {
        just_opened(log.drop_last(), key)
    }
}

/// How many evaluations there are.
pub open spec fn evaluations(log: Seq<WindowEvent>) -> nat
    decreases log.len(),
{
    if log.len() == 0 {
        0
    } else {
        evaluations(log.drop_last()) + (if log.last() is Evaluated {
            1nat
        } else {
            0nat
        })
    }
}

/// The counters after some evaluations, from `c` on.
pub open spec fn stats_after(c: WallStats, log: Seq<WindowEvent>) -> WallStats
    decreases log.len(),
{
    if log.len() == 0 {
        c
    } else {
        match log.last() {
            WindowEvent::Evaluated(t) => judged(stats_after(c, log.drop_last()), t.verdict()),
            _ => stats_after(c, log.drop_last()),
        }
    }
}

/// The walls kept after some evaluations, from none on.
pub open spec fn walls_after(keep: nat, log: Seq<WindowEvent>) -> Seq<WallRetired>
    decreases log.len(),
{
    if log.len() == 0 {
        Seq::empty()
    } else {
        let w = walls_after(keep, log.drop_last());
        match log.last() {
            WindowEvent::Evaluated(t) => match t.verdict() {
                Verdict::Fired(e) => walls_with(w, keep, e),
                _ => w,
            },
            _ => w,
        }
    }
}

/// Every evaluation is of a bucket whose quantity crossed.
pub open spec fn all_cross(log: Seq<WindowEvent>) -> bool {
    forall|i: int|
        0 <= i < log.len() ==> ((#[trigger] log[i]) matches WindowEvent::Evaluated(t)
            ==> t.crosses())
}

/// Each evaluation is the first of its window: the last thing that happened to the
/// bucket before it is that the window opened.
pub open spec fn once_each(log: Seq<WindowEvent>) -> bool {
    forall|i: int|
        0 <= i < log.len() && (#[trigger] log[i]) is Evaluated ==> just_opened(
            log.take(i),
            log[i].key(),
        )
}

/// The windows that were not evaluated are those that the log shows open.
spec fn windows_logged(s: MetricsState, log: Seq<WindowEvent>) -> bool {
    &&& sorted(s.windows)
    &&& once_each(log)
    &&& all_cross(log)
    &&& s.wall_stats.evaluated == clamp_u64(evaluations(log) as int)
    &&& s.wall_stats == stats_after(metrics_start(s.cfg).wall_stats, log)
    &&& s.walls == walls_after(s.cfg.keep_walls as nat, log)
    &&& forall|key: (Side, i64)|
        (#[trigger] find(s.windows, key) matches Some(w) && !w.evaluated) ==> just_opened(log, key)
}

proof fn lemma_log_push(log: Seq<WindowEvent>, e: WindowEvent)
    requires
        once_each(log),
        all_cross(log),
        e matches WindowEvent::Evaluated(t) ==> just_opened(log, e.key()) && t.crosses(),
    ensures
        once_each(log.push(e)),
        all_cross(log.push(e)),
        forall|c: WallStats| #[trigger]
            stats_after(c, log.push(e)) == (match e {
                WindowEvent::Evaluated(t) => judged(stats_after(c, log), t.verdict()),
                _ => stats_after(c, log),
            }),
        forall|keep: nat| #[trigger]
            walls_after(keep, log.push(e)) == (match e {
                WindowEvent::Evaluated(t) => match t.verdict() {
                    Verdict::Fired(w) => walls_with(walls_after(keep, log), keep, w),
                    _ => walls_after(keep, log),
                },
                _ => walls_after(keep, log),
            }),
        forall|key: (Side, i64)|
            key != e.key() ==> #[trigger] just_opened(log.push(e), key) == just_opened(log, key),
        e is Opened ==> just_opened(log.push(e), e.key()),
        evaluations(log.push(e)) == evaluations(log) + (if e is Evaluated {
            1nat
        } else {
            0nat
        }),
{
    let l = log.push(e);
    assert(l.drop_last() =~= log);
    assert forall|i: int| 0 <= i < l.len() && (#[trigger] l[i]) is Evaluated implies just_opened(
        l.take(i),
        l[i].key(),
    ) by {
        if i < log.len() {
            assert(l[i] == log[i]);
            assert(l.take(i) =~= log.take(i));
        } else {
            assert(l.take(i) =~= log);
        }
    }
}

proof fn lemma_touch_logged(
    s: MetricsState,
    log: Seq<WindowEvent>,
    wi: int,
    key: (Side, i64),
    t: Touch,
    clean: bool,
    ts: u64,
    mid: Option<i64>,
)
    requires
        windows_logged(s, log),
    ensures
        windows_logged(
            wall_next(s, wi, key, t, clean, ts, mid),
            log + touch_events(s, wi, key, t, clean, ts, mid),
        ),
{
    let n = wall_next(s, wi, key, t, clean, ts, mid);
    let obs = s.tracks[wi].cur.observed_at(ts);
    let acc = area_at(s, wi, key, ts);
    let ev = touch_events(s, wi, key, t, clean, ts, mid);
    let trial = Trial { s, wi, key, touch: t, clean, ts, mid };
    if obs == 0 {
        lemma_del(s.windows, key);
        lemma_log_push(log, WindowEvent::Dropped(key));
        assert(log + ev =~= log.push(WindowEvent::Dropped(key)));
        assert forall|k: (Side, i64)|
            (#[trigger] find(n.windows, k) matches Some(w) && !w.evaluated) implies just_opened(
            log + ev,
            k,
        ) by {
            let old = find(s.windows, k);
        }
    } else {
        let opens = t.prev * obs >= acc;
        let windows = if opens {
            put(s.windows, key, new_window(ts, t.prev))
        } else {
            s.windows
        };
        let l1 = if opens {
            log.push(WindowEvent::Opened(key))
        } else {
            log
        };
        lemma_put(s.windows, key, new_window(ts, t.prev));
        lemma_log_push(log, WindowEvent::Opened(key));
        assert forall|k: (Side, i64)|
            (#[trigger] find(windows, k) matches Some(w) && !w.evaluated) implies just_opened(
            l1,
            k,
        ) by {
            let old = find(s.windows, k);
        }
        if t.new * obs >= acc {
            lemma_put(windows, key, new_window(ts, t.new));
            lemma_log_push(l1, WindowEvent::Opened(key));
            assert(log + ev =~= l1.push(WindowEvent::Opened(key)));
            assert forall|k: (Side, i64)|
                (#[trigger] find(n.windows, k) matches Some(w) && !w.evaluated) implies just_opened(
                log + ev,
                k,
            ) by {
                let old = find(windows, k);
            }
        } else {
            match window_of(s, wi, key, t, ts) {
                None => {
                    assert(log + ev =~= l1);
                },
                Some(w0) => {
                    let w = Window {
                        executed: clamp_i64(w0.executed + t.executed) as i64,
                        poisoned: w0.poisoned || !clean,
                        ..w0
                    };
                    let judge = fell(t.new, obs, acc, s.cfg.wall.drop_pct) && !w.evaluated;
                    let kept = if judge {
                        Window { evaluated: true, ..w }
                    } else {
                        w
                    };
                    assert(find(windows, key) == Some(w0));
                    lemma_put(windows, key, kept);
                    assert(n.windows == put(windows, key, kept));
                    if judge {
                        assert(trial.window() == w);
                        lemma_log_push(l1, WindowEvent::Evaluated(trial));
                        assert(log + ev =~= l1.push(WindowEvent::Evaluated(trial)));
                    } else {
                        assert(log + ev =~= l1);
                    }
                    assert forall|k: (Side, i64)|
                        (#[trigger] find(n.windows, k) matches Some(x)
                            && !x.evaluated) implies just_opened(log + ev, k) by {
                        let old = find(windows, k);
                    }
                },
            }
        }
    }
}

proof fn lemma_touches_logged(
    s: MetricsState,
    log: Seq<WindowEvent>,
    wi: int,
    keys: Seq<((Side, i64), Touch)>,
    clean: bool,
    ts: u64,
    mid: Option<i64>,
)
    requires
        windows_logged(s, log),
    ensures
        windows_logged(
            walls_next(s, wi, keys, clean, ts, mid),
            log + touches_events(s, wi, keys, clean, ts, mid),
        ),
    decreases keys.len(),
{
    if keys.len() == 0 {
        assert(log + Seq::<WindowEvent>::empty() =~= log);
    } else {
        let before = keys.drop_last();
        lemma_touches_logged(s, log, wi, before, clean, ts, mid);
        let t = walls_next(s, wi, before, clean, ts, mid);
        let l = log + touches_events(s, wi, before, clean, ts, mid);
        lemma_touch_logged(t, l, wi, keys.last().0, keys.last().1, clean, ts, mid);
        assert(l + touch_events(t, wi, keys.last().0, keys.last().1, clean, ts, mid) =~= log
            + touches_events(
            s,
            wi,
            keys,
            clean,
            ts,
            mid,
        ));
    }
}

/// The detector of retired walls, over any inputs. A window is evaluated when the quantity
/// of its bucket falls under the given share of the bucket's TWA, and once only: between
/// two evaluations of a bucket a new window opened. Each evaluation has one verdict, which
/// is a retired wall if and only if every condition of one holds; the verdicts, in order,
/// make the counters and the walls that are kept; and until the counter is full each
/// evaluation is counted once, as fired or under the one reason of its rejection.
pub proof fn law_wall_detector(cfg: MetricsConfig, inputs: Seq<MetricsInput>)
    ensures
        ({
            let s = metrics_run(metrics_start(cfg), inputs).0;
            let log = run_events(metrics_start(cfg), inputs);
            &&& once_each(log)
            &&& forall|i: int|
                0 <= i < log.len() ==> ((#[trigger] log[i]) matches WindowEvent::Evaluated(t) ==> {
                    &&& t.crosses()
                    &&& (t.verdict() is Fired) == t.retired()
                    &&& t.verdict() matches Verdict::Fired(w) ==> w.side == t.key.0 && w.bucket
                        == t.key.1 && w.ts_ms == t.ts && w.qty.0 == t.touch.new && w.start_qty.0
                        == t.window().start_qty && w.executed.0 == t.window().executed
                        && w.twa.0 == average(t.area(), t.observed()) && w.percentile_twa.0
                        == average(t.threshold(), t.observed())
                })
            &&& s.wall_stats == stats_after(metrics_start(cfg).wall_stats, log)
            &&& s.wall_stats.evaluated == clamp_u64(evaluations(log) as int)
            &&& s.walls == walls_after(cfg.keep_walls as nat, log)
            &&& walls_sound(s)
        }),
{
    lemma_run_logged(cfg, inputs);
    law_walls_deserved(cfg, inputs);
}

/// Each window of the detector is evaluated once: over any inputs, between two
/// evaluations of a bucket a new window opened, because the bucket stood at its average
/// or above it; and every evaluation is counted.
pub proof fn law_each_window_is_evaluated_once(cfg: MetricsConfig, inputs: Seq<MetricsInput>)
    ensures
        once_each(run_events(metrics_start(cfg), inputs)),
        metrics_run(metrics_start(cfg), inputs).0.wall_stats.evaluated == clamp_u64(
            evaluations(run_events(metrics_start(cfg), inputs)) as int,
        ),
{
    lemma_run_logged(cfg, inputs);
}

proof fn lemma_run_logged(cfg: MetricsConfig, inputs: Seq<MetricsInput>)
    ensures
        windows_logged(
            metrics_run(metrics_start(cfg), inputs).0,
            run_events(metrics_start(cfg), inputs),
        ),
    decreases inputs.len(),
{
    let s0 = metrics_start(cfg);
    if inputs.len() > 0 {
        lemma_run_logged(cfg, inputs.drop_last());
        let m = metrics_run(s0, inputs.drop_last()).0;
        let log = run_events(s0, inputs.drop_last());
        assert(log + Seq::<WindowEvent>::empty() =~= log);
        match inputs.last() {
            MetricsInput::Batch { b } => {
                if m.live {
                    let q = before_walls(m, b);
                    assert(windows_logged(q, log));
                    match position_from(m.cfg.timeframes_ms@, m.cfg.wall_tf_ms, 0) {
                        Some(wi) => {
                            if wi < q.tracks.len() {
                                lemma_touches_logged(
                                    q,
                                    log,
                                    wi,
                                    batch_touch(batch_start(m, b), m.batch).keys,
                                    b.contaminated is None,
                                    b.end_ts_ms,
                                    mid_bucket(q),
                                );
                            }
                        },
                        None => {},
                    }
                }
            },
            _ => {},
        }
    }
}

} // verus!

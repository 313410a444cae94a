//! What the detector of retired walls says of a wall, and why it says nothing.

use crate::book::BookState;
use crate::event::Side;
use crate::footprint::{
    average, bucket_of, ceiling_at, fell, floor_at, judged, new_window, partial, percentile,
    rebuilt_next, side_areas, verdict, wall_next, walls_with, CandleState, MetricsState, Touch,
    Verdict, WallRetired, WallStats, Window,
};
use crate::ordmap::{find, lemma_put, put, sorted};
use vstd::prelude::*;

verus! {

/// A wall is told as it was: where, from when to when, its quantity at the start and at the
/// end, what was executed of it and how far it stood from the middle of the book. It stood
/// out among the buckets of its side, near enough, and fell for another reason than
/// executions.
pub proof fn law_wall_is_told_as_it_was(
    s: MetricsState,
    c: CandleState,
    key: (Side, i64),
    w: Window,
    new: i64,
    acc: i128,
    obs: u64,
    ts: u64,
    mid: Option<i64>,
)
    ensures
        verdict(s, c, key, w, new, acc, obs, ts, mid) matches Verdict::Fired(e) ==> {
            &&& e.side == key.0 && e.bucket == key.1
            &&& i64::MIN <= key.1 * s.cfg.bucket.0 <= i64::MAX ==> e.px_low.0 == key.1
                * s.cfg.bucket.0
            &&& e.ts_ms == ts && e.window_start_ms == w.start_ts
            &&& e.start_qty.0 == w.start_qty && e.qty.0 == new && e.executed.0 == w.executed
            &&& !w.poisoned && !partial(s, key.0, key.1)
            &&& mid matches Some(m)
            &&& -0x4000_0000_0000_0000 <= key.1 - m <= 0x4000_0000_0000_0000 ==> {
                &&& e.distance >= 0
                &&& e.distance == key.1 - m || e.distance == m - key.1
            }
            &&& e.distance <= s.cfg.wall.max_distance
            &&& acc >= percentile(
                side_areas(s, c.cells, key.0, ts, c.live_since is Some),
                s.cfg.wall.percentile,
                0,
            )
            &&& w.start_qty > new
            &&& w.executed * 100 < s.cfg.wall.max_exec_pct * (w.start_qty - new)
            &&& e.twa.0 == average(acc, obs)
        },
{
}

/// An evaluation that tells no wall has one reason, the first that holds of these: the window
/// is contaminated, the bucket is out of coverage, there is no middle, the bucket does not
/// stand out, it is too far, or executions explain its fall.
pub proof fn law_rejection_has_its_reason(
    s: MetricsState,
    c: CandleState,
    key: (Side, i64),
    w: Window,
    new: i64,
    acc: i128,
    obs: u64,
    ts: u64,
    mid: Option<i64>,
)
    ensures
        ({
            let v = verdict(s, c, key, w, new, acc, obs, ts, mid);
            let low = acc < percentile(
                side_areas(s, c.cells, key.0, ts, c.live_since is Some),
                s.cfg.wall.percentile,
                0,
            );
            &&& v is Contaminated <==> w.poisoned
            &&& v is Uncovered <==> !w.poisoned && partial(s, key.0, key.1)
            &&& v is NoMid <==> !w.poisoned && !partial(s, key.0, key.1) && mid is None
            &&& v is Percentile <==> !w.poisoned && !partial(s, key.0, key.1) && mid is Some && low
            &&& v is Executions ==> w.start_qty <= new || w.executed * 100
                >= s.cfg.wall.max_exec_pct * (w.start_qty - new)
        }),
{
}

/// Each evaluation is counted, and under its own verdict alone.
pub proof fn law_verdicts_are_counted(c: WallStats, v: Verdict)
    requires
        c.evaluated < u64::MAX,
        c.fired < u64::MAX,
        c.rejected_contaminated < u64::MAX,
        c.rejected_coverage < u64::MAX,
        c.rejected_no_mid < u64::MAX,
        c.rejected_percentile < u64::MAX,
        c.rejected_distance < u64::MAX,
        c.rejected_exec < u64::MAX,
    ensures
        ({
            let d = judged(c, v);
            &&& d.evaluated == c.evaluated + 1
            &&& d.fired - c.fired == (if v is Fired {
                1int
            } else {
                0
            })
            &&& d.rejected_contaminated - c.rejected_contaminated == (if v is Contaminated {
                1int
            } else {
                0
            })
            &&& d.rejected_coverage - c.rejected_coverage == (if v is Uncovered {
                1int
            } else {
                0
            })
            &&& d.rejected_no_mid - c.rejected_no_mid == (if v is NoMid {
                1int
            } else {
                0
            })
            &&& d.rejected_percentile - c.rejected_percentile == (if v is Percentile {
                1int
            } else {
                0
            })
            &&& d.rejected_distance - c.rejected_distance == (if v is Distance {
                1int
            } else {
                0
            })
            &&& d.rejected_exec - c.rejected_exec == (if v is Executions {
                1int
            } else {
                0
            })
        }),
{
}

/// The newest walls are kept, in order: the last is the one just told, and the oldest leaves
/// where there is no more room.
pub proof fn law_newest_walls_are_kept(walls: Seq<WallRetired>, keep: nat, w: WallRetired)
    requires
        walls.len() <= keep,
        keep > 0,
    ensures
        ({
            let k = walls_with(walls, keep, w);
            &&& k.len() <= keep && k.last() == w
            &&& walls.len() < keep ==> k.drop_last() == walls
            &&& walls.len() == keep ==> k.drop_last() == walls.skip(1)
        }),
{
    let k = walls_with(walls, keep, w);
    if walls.len() < keep {
        assert(k.drop_last() == walls);
    } else {
        assert(k.drop_last() == walls.skip(1));
    }
}

/// A bucket is out of coverage at or under the floor of the bids, or at or over the ceiling
/// of the asks; of a book of the best levels alone these are its last ones.
pub proof fn law_coverage_has_a_floor_and_a_ceiling(s: MetricsState, b: i64)
    ensures
        partial(s, Side::Bid, b) <==> floor_at(s) is Some && b <= floor_at(s)->0,
        partial(s, Side::Ask, b) <==> ceiling_at(s) is Some && b >= ceiling_at(s)->0,
        !s.rolling ==> floor_at(s) == s.floor && ceiling_at(s) == s.ceiling,
        s.rolling && s.bids.len() > 0 ==> floor_at(s) == Some(
            bucket_of(s.bids[0].0, s.cfg.bucket),
        ),
        s.rolling && s.asks.len() > 0 ==> ceiling_at(s) == Some(
            bucket_of(s.asks[s.asks.len() - 1].0, s.cfg.bucket),
        ),
        s.rolling && s.bids.len() == 0 ==> floor_at(s) is None,
        s.rolling && s.asks.len() == 0 ==> ceiling_at(s) is None,
{
}

/// A window opens where the quantity reaches the average of its bucket, at that quantity and
/// instant, and has seen nothing yet.
pub proof fn law_window_opens_at_the_average(
    s: MetricsState,
    wi: int,
    key: (Side, i64),
    t: Touch,
    clean: bool,
    ts: u64,
    mid: Option<i64>,
)
    requires
        sorted(s.windows),
        s.tracks[wi].cur.observed_at(ts) > 0,
        ({
            let c = s.tracks[wi].cur;
            let acc = match find(c.cells, key) {
                Some(cell) => crate::footprint::acc_at(cell, ts, c.live_since is Some) as int,
                None => 0int,
            };
            t.new * c.observed_at(ts) >= acc
        }),
    ensures
        ({
            let n = wall_next(s, wi, key, t, clean, ts, mid);
            &&& find(n.windows, key) matches Some(w) && w.start_ts == ts && w.start_qty == t.new
                && w.executed == 0 && !w.evaluated && !w.poisoned
            &&& n.walls == s.walls && n.wall_stats == s.wall_stats
        }),
{
    let first = put(s.windows, key, new_window(ts, t.prev));
    lemma_put(s.windows, key, new_window(ts, t.prev));
    lemma_put(first, key, new_window(ts, t.new));
    lemma_put(s.windows, key, new_window(ts, t.new));
}

/// A quantity fell where it is under the given share of the average: what it is worth over
/// the time observed, in hundredths, is less than that share of the area.
pub proof fn law_fall_is_a_share_of_the_average(new: i64, obs: u64, acc: i128, drop_pct: u32)
    requires
        i128::MIN <= (new * obs) * 100 <= i128::MAX,
        i128::MIN <= (100 - drop_pct) * acc <= i128::MAX,
    ensures
        fell(new, obs, acc, drop_pct) <==> (new * obs) * 100 < (100 - drop_pct) * acc,
{
}

/// An average is the area over the time, less what is under one unit.
pub proof fn law_average_is_area_over_time(acc: i128, obs: u64)
    requires
        obs > 0,
        0 <= acc <= i64::MAX * obs,
    ensures
        average(acc, obs) * obs <= acc < (average(acc, obs) + 1) * obs,
{
    let a = acc as int;
    let o = obs as int;
    assert((a / o) * o <= a < (a / o + 1) * o && 0 <= a / o <= i64::MAX) by (nonlinear_arith)
        requires
            o > 0,
            0 <= a <= i64::MAX * o,
    ;
}

/// A rebuilt book is mirrored whole, with its coverage by bucket; the batch in course is
/// forgotten.
pub proof fn law_rebuilt_book_is_mirrored(s: MetricsState, book: BookState)
    ensures
        ({
            let n = rebuilt_next(s, book);
            &&& n.live && n.resume_pending && n.rolling == book.rolling && n.batch.len() == 0
            &&& n.bids.len() == book.bids.len() && n.asks.len() == book.asks.len()
            &&& forall|i: int|
                0 <= i < n.bids.len() ==> (#[trigger] n.bids[i]).0 == book.bids[i].0 && n.bids[i].1
                    == book.bids[i].1.0
            &&& forall|i: int|
                0 <= i < n.asks.len() ==> (#[trigger] n.asks[i]).0 == book.asks[i].0 && n.asks[i].1
                    == book.asks[i].1.0
            &&& book.coverage().bid_floor matches Some(p) ==> n.floor == Some(
                bucket_of(p, s.cfg.bucket),
            )
            &&& book.coverage().ask_ceiling matches Some(p) ==> n.ceiling == Some(
                bucket_of(p, s.cfg.bucket),
            )
            &&& book.coverage().bid_floor is None ==> n.floor is None
            &&& book.coverage().ask_ceiling is None ==> n.ceiling is None
            &&& n.tracks == s.tracks
        }),
{
}

} // verus!

//! Delta of the book: bids less asks of spot and perpetual markets, around a price.
//!
//! With `m` the bucket of the reference price, for each distance `k` from 1 on:
//!
//! `delta_k = (bid_spot + bid_perp)(m − k) − (ask_spot + ask_perp)(m + k)`
//!
//! At a price of 101, `k = 1` compares bids at 100 with asks at 102, `k = 2` 99 with 103.
//! The bucket `m` itself, which mixes bids and asks, takes no part. `cum_k` is the sum of
//! the deltas up to `k`. Quantities are those visible now, and those of several venues are
//! added. A pair with a bucket out of the coverage of any market is not complete (the real
//! quantity may be larger).

use crate::event::Side;
use crate::fixed::{Px, Qty};
use crate::footprint::{CellView, MetricsShow, MetricsView};
use crate::num::{add_i64, clamp_i64, sub_i64, to_i64};
use crate::text::{ends, ends_with};
use vstd::prelude::*;

verus! {

/// A pair of symmetric levels.
#[derive(Debug, Clone, Copy, PartialEq, Eq, Structural)]
pub struct CvdLevel {
    /// Distance in buckets.
    pub k: i64,
    /// Bucket of the bids (`m − k`).
    pub bid_bucket: i64,
    /// Bucket of the asks (`m + k`).
    pub ask_bucket: i64,
    /// Spot bids at `m − k`.
    pub bid_spot: Qty,
    /// Perpetual bids at `m − k`.
    pub bid_perp: Qty,
    /// Spot asks at `m + k`.
    pub ask_spot: Qty,
    /// Perpetual asks at `m + k`.
    pub ask_perp: Qty,
    /// `(bid_spot + bid_perp) − (ask_spot + ask_perp)`.
    pub delta: Qty,
    /// Sum of the deltas up to `k`.
    pub cum: Qty,
    /// Both buckets are within the coverage of every market.
    pub complete: bool,
}

/// Delta of the book, spot and perpetual.
#[derive(Debug, Clone)]
pub struct BookCvd {
    /// Reference price.
    pub ref_px: Px,
    /// Bucket of the reference price (`m`).
    pub ref_bucket: i64,
    /// Pairs from `k = 1` on.
    pub levels: Vec<CvdLevel>,
    /// Sum of the deltas.
    pub total: Qty,
    /// Every pair is complete.
    pub complete: bool,
    /// Oldest exchange time of the spot views (ms).
    pub spot_ts_ms: u64,
    /// Oldest exchange time of the perpetual views (ms).
    pub perp_ts_ms: u64,
    /// Distance between the newest and the oldest view (ms).
    pub skew_ms: u64,
    /// Markets added.
    pub markets: usize,
}

/// What a [`BookCvd`] shows.
#[verifier::ext_equal]
pub struct CvdShow {
    /// Reference price.
    pub ref_px: Px,
    /// Bucket of the reference price.
    pub ref_bucket: i64,
    /// Pairs.
    pub levels: Seq<CvdLevel>,
    /// Sum of the deltas.
    pub total: Qty,
    /// Every pair is complete.
    pub complete: bool,
    /// Oldest spot view.
    pub spot_ts_ms: u64,
    /// Oldest perpetual view.
    pub perp_ts_ms: u64,
    /// Distance between the newest and the oldest view.
    pub skew_ms: u64,
    /// Markets added.
    pub markets: int,
}

impl View for BookCvd {
    type V = CvdShow;

    open spec fn view(&self) -> CvdShow {
        CvdShow {
            ref_px: self.ref_px,
            ref_bucket: self.ref_bucket,
            levels: self.levels@,
            total: self.total,
            complete: self.complete,
            spot_ts_ms: self.spot_ts_ms,
            perp_ts_ms: self.perp_ts_ms,
            skew_ms: self.skew_ms,
            markets: self.markets as int,
        }
    }
}

/// What some views of metrics show.
pub open spec fn shown(v: Seq<&MetricsView>) -> Seq<MetricsShow> {
    Seq::new(v.len(), |i: int| v[i]@)
}

/// The bucket is within the coverage of a market.
pub open spec fn covered(v: MetricsShow, side: Side, bucket: i64) -> bool {
    match side {
        Side::Bid => v.bid_floor_bucket is None || bucket > v.bid_floor_bucket->0,
        Side::Ask => v.ask_ceiling_bucket is None || bucket < v.ask_ceiling_bucket->0,
    }
}

/// The quantity of the first cell of a bucket, from the `i`-th on.
pub open spec fn cell_qty(cells: Seq<CellView>, side: Side, bucket: i64, i: int) -> i64
    decreases cells.len() - i,
{
    if i < 0 || i >= cells.len() {
        0
    } else if cells[i].side == side && cells[i].bucket == bucket {
        cells[i].qty.0
    } else {
        cell_qty(cells, side, bucket, i + 1)
    }
}

/// The quantity that a market shows in a bucket now.
pub open spec fn bucket_qty(v: MetricsShow, side: Side, bucket: i64) -> i64 {
    if v.current.len() == 0 {
        0
    } else {
        cell_qty(v.current[0].cells, side, bucket, 0)
    }
}

/// The quantity that some markets show in a bucket, added.
pub open spec fn joint_qty(v: Seq<MetricsShow>, side: Side, bucket: i64) -> i64
    decreases v.len(),
{
    if v.len() == 0 {
        0
    } else {
        clamp_i64(
            joint_qty(v.drop_last(), side, bucket) + bucket_qty(v.last(), side, bucket),
        ) as i64
    }
}

/// The bucket is within the coverage of every market.
pub open spec fn all_covered(v: Seq<MetricsShow>, side: Side, bucket: i64) -> bool {
    forall|i: int| 0 <= i < v.len() ==> covered(#[trigger] v[i], side, bucket)
}

/// The delta at a distance.
pub open spec fn delta_at(
    spots: Seq<MetricsShow>,
    perps: Seq<MetricsShow>,
    m: i64,
    k: int,
) -> i64 {
    let b = clamp_i64(m - k) as i64;
    let a = clamp_i64(m + k) as i64;
    clamp_i64(
        joint_qty(spots, Side::Bid, b) + joint_qty(perps, Side::Bid, b) - joint_qty(
            spots,
            Side::Ask,
            a,
        ) - joint_qty(perps, Side::Ask, a),
    ) as i64
}

/// The sum of the deltas up to a distance.
pub open spec fn cum_at(spots: Seq<MetricsShow>, perps: Seq<MetricsShow>, m: i64, k: int) -> i64
    decreases k,
{
    if k <= 0 {
        0
    } else {
        clamp_i64(cum_at(spots, perps, m, k - 1) + delta_at(spots, perps, m, k)) as i64
    }
}

/// The pair at a distance.
pub open spec fn level_at(
    spots: Seq<MetricsShow>,
    perps: Seq<MetricsShow>,
    m: i64,
    k: int,
) -> CvdLevel {
    let b = clamp_i64(m - k) as i64;
    let a = clamp_i64(m + k) as i64;
    CvdLevel {
        k: k as i64,
        bid_bucket: b,
        ask_bucket: a,
        bid_spot: Qty(joint_qty(spots, Side::Bid, b)),
        bid_perp: Qty(joint_qty(perps, Side::Bid, b)),
        ask_spot: Qty(joint_qty(spots, Side::Ask, a)),
        ask_perp: Qty(joint_qty(perps, Side::Ask, a)),
        delta: Qty(delta_at(spots, perps, m, k)),
        cum: Qty(cum_at(spots, perps, m, k)),
        complete: all_covered(spots, Side::Bid, b) && all_covered(perps, Side::Bid, b)
            && all_covered(spots, Side::Ask, a) && all_covered(perps, Side::Ask, a),
    }
}

/// The oldest time of some views (0 without any).
pub open spec fn oldest_of(v: Seq<MetricsShow>) -> u64
    decreases v.len(),
{
    if v.len() == 0 {
        0
    } else if v.len() == 1 || v.last().now_ms < oldest_of(v.drop_last()) {
        v.last().now_ms
    } else {
        oldest_of(v.drop_last())
    }
}

/// The newest time of some views (0 without any).
pub open spec fn newest_of(v: Seq<MetricsShow>) -> u64
    decreases v.len(),
{
    if v.len() == 0 {
        0
    } else if v.last().now_ms > newest_of(v.drop_last()) {
        v.last().now_ms
    } else {
        newest_of(v.drop_last())
    }
}

/// The delta of the book of some markets.
pub open spec fn cvd_of(
    spots: Seq<MetricsShow>,
    perps: Seq<MetricsShow>,
    ref_px: Px,
    bucket: Px,
    levels: int,
) -> CvdShow {
    let m = (ref_px.0 as int / bucket.0 as int) as i64;
    let all = spots + perps;
    CvdShow {
        ref_px,
        ref_bucket: m,
        levels: Seq::new(levels as nat, |i: int| level_at(spots, perps, m, i + 1)),
        total: Qty(cum_at(spots, perps, m, levels)),
        complete: forall|k: int|
            1 <= k <= levels ==> (#[trigger] level_at(spots, perps, m, k)).complete,
        spot_ts_ms: oldest_of(spots),
        perp_ts_ms: oldest_of(perps),
        skew_ms: (newest_of(all) - oldest_of(all)) as u64,
        markets: (spots.len() + perps.len()) as int,
    }
}

/// Exact sum of the deltas up to a distance.
pub open spec fn delta_sum(spots: Seq<MetricsShow>, perps: Seq<MetricsShow>, m: i64, k: int) -> int
    decreases k,
{
    if k <= 0 {
        0
    } else {
        delta_sum(spots, perps, m, k - 1) + delta_at(spots, perps, m, k)
    }
}

/// While the partial sums fit in their type, the accumulated delta at each distance, and
/// the total, are the exact sums of the deltas.
pub proof fn law_total_is_the_sum(
    spots: Seq<MetricsShow>,
    perps: Seq<MetricsShow>,
    ref_px: Px,
    bucket: Px,
    levels: nat,
)
    requires
        bucket.0 > 0,
        forall|k: int|
            0 <= k <= levels ==> i64::MIN <= #[trigger] delta_sum(
                spots,
                perps,
                (ref_px.0 as int / bucket.0 as int) as i64,
                k,
            ) <= i64::MAX,
    ensures
        ({
            let c = cvd_of(spots, perps, ref_px, bucket, levels as int);
            &&& c.levels.len() == levels
            &&& c.total.0 == delta_sum(spots, perps, c.ref_bucket, levels as int)
            &&& forall|i: int|
                0 <= i < levels ==> (#[trigger] c.levels[i]).cum.0 == delta_sum(
                    spots,
                    perps,
                    c.ref_bucket,
                    i + 1,
                )
        }),
{
    let m = (ref_px.0 as int / bucket.0 as int) as i64;
    assert forall|k: int| 0 <= k <= levels implies cum_at(spots, perps, m, k)
        == #[trigger] delta_sum(spots, perps, m, k) by {
        lemma_cum_exact(spots, perps, m, k, levels as int);
    }
}

proof fn lemma_cum_exact(
    spots: Seq<MetricsShow>,
    perps: Seq<MetricsShow>,
    m: i64,
    k: int,
    n: int,
)
    requires
        0 <= k <= n,
        forall|j: int|
            0 <= j <= n ==> i64::MIN <= #[trigger] delta_sum(spots, perps, m, j) <= i64::MAX,
    ensures
        cum_at(spots, perps, m, k) == delta_sum(spots, perps, m, k),
    decreases k,
{
    if k > 0 {
        lemma_cum_exact(spots, perps, m, k - 1, n);
        assert(i64::MIN <= delta_sum(spots, perps, m, k) <= i64::MAX);
    }
}

proof fn lemma_times(v: Seq<MetricsShow>)
    ensures
        oldest_of(v) <= newest_of(v),
    decreases v.len(),
{
    if v.len() > 0 {
        lemma_times(v.drop_last());
    }
}

/// The quantity of a bucket in a market, and whether the bucket is covered.
fn qty(v: &MetricsView, side: Side, bucket: i64) -> (r: (i64, bool))
    ensures
        r.0 == bucket_qty(v@, side, bucket),
        r.1 == covered(v@, side, bucket),
{
    let is_covered = match side {
        Side::Bid => match v.bid_floor_bucket {
            Some(f) => bucket > f,
            None => true,
        },
        Side::Ask => match v.ask_ceiling_bucket {
            Some(c) => bucket < c,
            None => true,
        },
    };
    if v.current.len() == 0 {
        return (0, is_covered);
    }
    let cells = &v.current[0].cells;
    assert(v@.current[0].cells == cells@);
    let mut i: usize = 0;
    while i < cells.len()
        invariant
            i <= cells@.len(),
            v@.current.len() > 0,
            v@.current[0].cells == cells@,
            is_covered == covered(v@, side, bucket),
            cell_qty(cells@, side, bucket, 0) == cell_qty(cells@, side, bucket, i as int),
        decreases cells@.len() - i,
    {
        if cells[i].side == side && cells[i].bucket == bucket {
            return (cells[i].qty.0, is_covered);
        }
        i += 1;
    }
    (0, is_covered)
}

/// The quantity of a bucket in several markets, and whether all of them cover it.
fn sum(views: &[&MetricsView], side: Side, bucket: i64) -> (r: (i64, bool))
    ensures
        r.0 == joint_qty(shown(views@), side, bucket),
        r.1 == all_covered(shown(views@), side, bucket),
{
    let ghost s = shown(views@);
    let mut q: i64 = 0;
    let mut c = true;
    let mut i: usize = 0;
    while i < views.len()
        invariant
            i <= views@.len(),
            s == shown(views@),
            q == joint_qty(s.take(i as int), side, bucket),
            c == (forall|j: int| 0 <= j < i ==> covered(#[trigger] s[j], side, bucket)),
        decreases views@.len() - i,
    {
        let (q2, c2) = qty(views[i], side, bucket);
        assert(s[i as int] == views@[i as int]@);
        assert(s.take(i + 1).drop_last() =~= s.take(i as int));
        q = add_i64(q, q2);
        c = c && c2;
        i += 1;
    }
    assert(s.take(i as int) =~= s);
    (q, c)
}

/// The oldest and the newest time of some views.
fn times(views: &[&MetricsView]) -> (r: (u64, u64))
    ensures
        r.0 == oldest_of(shown(views@)),
        r.1 == newest_of(shown(views@)),
{
    let ghost s = shown(views@);
    let mut lo: u64 = 0;
    let mut hi: u64 = 0;
    let mut i: usize = 0;
    while i < views.len()
        invariant
            i <= views@.len(),
            s == shown(views@),
            lo == oldest_of(s.take(i as int)),
            hi == newest_of(s.take(i as int)),
        decreases views@.len() - i,
    {
        let t = views[i].now_ms;
        assert(s[i as int] == views@[i as int]@);
        assert(s.take(i + 1).drop_last() =~= s.take(i as int));
        if i == 0 || t < lo {
            lo = t;
        }
        if t > hi {
            hi = t;
        }
        i += 1;
    }
    assert(s.take(i as int) =~= s);
    (lo, hi)
}

proof fn lemma_joined_times(a: Seq<MetricsShow>, b: Seq<MetricsShow>)
    ensures
        newest_of(a + b) == (if newest_of(b) > newest_of(a) {
            newest_of(b)
        } else {
            newest_of(a)
        }),
        a.len() == 0 ==> oldest_of(a + b) == oldest_of(b),
        b.len() == 0 ==> oldest_of(a + b) == oldest_of(a),
        a.len() > 0 && b.len() > 0 ==> oldest_of(a + b) == (if oldest_of(b) < oldest_of(a) {
            oldest_of(b)
        } else {
            oldest_of(a)
        }),
    decreases b.len(),
{
    if b.len() == 0 {
        assert(a + b =~= a);
    } else {
        assert((a + b).drop_last() =~= a + b.drop_last());
        lemma_joined_times(a, b.drop_last());
    }
}

/// The delta of the book with the candles in progress of a spot and a perpetual market.
pub fn book_cvd(
    spot: &MetricsView,
    perp: &MetricsView,
    ref_px: Px,
    bucket: Px,
    levels: usize,
) -> (r: BookCvd)
    requires
        bucket.0 > 0,
        levels <= i64::MAX,
    ensures
        r@ == cvd_of(seq![spot@], seq![perp@], ref_px, bucket, levels as int),
{
    let spots: [&MetricsView; 1] = [spot];
    let perps: [&MetricsView; 1] = [perp];
    assert(shown(spots@) =~= seq![spot@]);
    assert(shown(perps@) =~= seq![perp@]);
    book_cvd_multi(&spots, &perps, ref_px, bucket, levels)
}

/// The delta of the book adding several spot and perpetual markets.
pub fn book_cvd_multi(
    spots: &[&MetricsView],
    perps: &[&MetricsView],
    ref_px: Px,
    bucket: Px,
    levels: usize,
) -> (r: BookCvd)
    requires
        bucket.0 > 0,
        levels <= i64::MAX,
        spots@.len() + perps@.len() <= usize::MAX,
    ensures
        r@ == cvd_of(shown(spots@), shown(perps@), ref_px, bucket, levels as int),
{
    let ghost ss = shown(spots@);
    let ghost ps = shown(perps@);
    let m = ref_px.bucket(bucket);
    let ghost want = Seq::new(levels as nat, |i: int| level_at(ss, ps, m, i + 1));
    let mut cum: i64 = 0;
    let mut all = true;
    let mut lv: Vec<CvdLevel> = Vec::new();
    let mut n: usize = 0;
    while n < levels
        invariant
            n <= levels <= i64::MAX,
            ss == shown(spots@),
            ps == shown(perps@),
            want == Seq::new(levels as nat, |i: int| level_at(ss, ps, m, i + 1)),
            lv@ == want.take(n as int),
            cum == cum_at(ss, ps, m, n as int),
            all == (forall|k: int| 1 <= k <= n ==> (#[trigger] level_at(ss, ps, m, k)).complete),
        decreases levels - n,
    {
        let k: i64 = (n + 1) as i64;
        let b = sub_i64(m, k);
        let a = add_i64(m, k);
        let (bs, c1) = sum(spots, Side::Bid, b);
        let (bp, c2) = sum(perps, Side::Bid, b);
        let (as_, c3) = sum(spots, Side::Ask, a);
        let (ap, c4) = sum(perps, Side::Ask, a);
        let delta = to_i64(bs as i128 + bp as i128 - as_ as i128 - ap as i128);
        cum = add_i64(cum, delta);
        let complete = c1 && c2 && c3 && c4;
        let l = CvdLevel {
            k,
            bid_bucket: b,
            ask_bucket: a,
            bid_spot: Qty(bs),
            bid_perp: Qty(bp),
            ask_spot: Qty(as_),
            ask_perp: Qty(ap),
            delta: Qty(delta),
            cum: Qty(cum),
            complete,
        };
        assert(l == level_at(ss, ps, m, n + 1));
        assert(want[n as int] == level_at(ss, ps, m, n + 1));
        all = all && complete;
        lv.push(l);
        n += 1;
        assert(lv@ =~= want.take(n as int));
    }
    assert(want.take(n as int) =~= want);
    let (s0, s1) = times(spots);
    let (p0, p1) = times(perps);
    let hi = if p1 > s1 {
        p1
    } else {
        s1
    };
    let lo = if spots.len() == 0 || (perps.len() > 0 && p0 < s0) {
        p0
    } else {
        s0
    };
    proof {
        lemma_joined_times(ss, ps);
        lemma_times(ss + ps);
    }
    let r = BookCvd {
        ref_px,
        ref_bucket: m,
        levels: lv,
        total: Qty(cum),
        complete: all,
        spot_ts_ms: s0,
        perp_ts_ms: p0,
        skew_ms: hi - lo,
        markets: spots.len() + perps.len(),
    };
    assert(r@ =~= cvd_of(ss, ps, ref_px, bucket, levels as int));
    r
}

/// Levels (symmetric pairs) of the delta that the node shows.
pub const LEVELS: usize = 5;

/// A market as the delta of the node needs it.
pub struct CvdMarket<'a> {
    /// Its key: `spot`, `okx.perp`.
    pub key: &'a str,
    /// Its book is live.
    pub live: bool,
    /// Its mid price.
    pub mid: Option<Px>,
    /// Its metrics.
    pub metrics: &'a MetricsView,
}

/// The views of the live markets whose key ends in a word.
pub open spec fn chosen(reg: Seq<CvdMarket<'_>>, word: Seq<char>) -> Seq<MetricsShow>
    decreases reg.len(),
{
    if reg.len() == 0 {
        Seq::empty()
    } else if reg.last().live && ends(reg.last().key@, word) {
        chosen(reg.drop_last(), word).push(reg.last().metrics@)
    } else {
        chosen(reg.drop_last(), word)
    }
}

/// The mid price of the first live spot market that has one.
pub open spec fn reference_px(reg: Seq<CvdMarket<'_>>) -> Option<Px>
    decreases reg.len(),
{
    if reg.len() == 0 {
        None
    } else if reference_px(reg.drop_last()) is Some {
        reference_px(reg.drop_last())
    } else if reg.last().live && ends(reg.last().key@, "spot"@) {
        reg.last().mid
    } else {
        None
    }
}

/// The delta of the node: at least one live spot market and one live perpetual market are
/// needed, and a reference price.
pub open spec fn node_cvd(reg: Seq<CvdMarket<'_>>) -> Option<CvdShow> {
    let spots = chosen(reg, "spot"@);
    let perps = chosen(reg, "perp"@);
    if spots.len() == 0 || perps.len() == 0 || reference_px(reg) is None {
        None
    } else {
        Some(cvd_of(spots, perps, reference_px(reg)->0, Px(100_000_000), LEVELS as int))
    }
}

proof fn lemma_one_word(t: Seq<char>)
    ensures
        !(ends(t, "spot"@) && ends(t, "perp"@)),
{
    reveal_strlit("spot");
    reveal_strlit("perp");
    if ends(t, "spot"@) && ends(t, "perp"@) {
        let n = t.len() - 4;
        assert(t.skip(n)[0] == 's');
        assert(t.skip(n)[0] == 'p');
    }
}

/// The delta of the book with the markets of the node.
pub fn compute(reg: &[CvdMarket<'_>]) -> (r: Option<BookCvd>)
    requires
        reg@.len() <= usize::MAX / 2,
    ensures
        match r {
            Some(c) => node_cvd(reg@) == Some(c@),
            None => node_cvd(reg@) is None,
        },
{
    let mut spots: Vec<&MetricsView> = Vec::new();
    let mut perps: Vec<&MetricsView> = Vec::new();
    let mut ref_px: Option<Px> = None;
    let mut i: usize = 0;
    assert(shown(spots@) =~= Seq::<MetricsShow>::empty());
    assert(shown(perps@) =~= Seq::<MetricsShow>::empty());
    while i < reg.len()
        invariant
            i <= reg@.len(),
            reg@.len() <= usize::MAX / 2,
            spots@.len() <= i,
            perps@.len() <= i,
            shown(spots@) == chosen(reg@.take(i as int), "spot"@),
            shown(perps@) == chosen(reg@.take(i as int), "perp"@),
            ref_px == reference_px(reg@.take(i as int)),
        decreases reg@.len() - i,
    {
        let m = &reg[i];
        proof {
            let t = reg@.take(i + 1);
            assert(t.drop_last() =~= reg@.take(i as int));
            assert(t.last() == reg@[i as int]);
            lemma_one_word(m.key@);
        }
        let ghost s0 = spots@;
        let ghost p0 = perps@;
        if m.live {
            if ends_with(m.key, "spot") {
                if ref_px.is_none() {
                    ref_px = m.mid;
                }
                spots.push(m.metrics);
                assert(shown(spots@) =~= shown(s0).push(m.metrics@));
            } else if ends_with(m.key, "perp") {
                perps.push(m.metrics);
                assert(shown(perps@) =~= shown(p0).push(m.metrics@));
            }
        }
        i += 1;
    }
    assert(reg@.take(i as int) =~= reg@);
    if spots.len() == 0 || perps.len() == 0 {
        return None;
    }
    match ref_px {
        Some(px) => Some(
            book_cvd_multi(
                spots.as_slice(),
                perps.as_slice(),
                px,
                Px::from_units(1),
                LEVELS,
            ),
        ),
        None => None,
    }
}

} // verus!

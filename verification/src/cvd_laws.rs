//! What the delta of the book adds, and of which markets.

use crate::cvd::{
    all_covered, bucket_qty, cell_qty, chosen, covered, cum_at, cvd_of, joint_qty, level_at,
    newest_of, node_cvd, oldest_of, reference_px, CvdMarket,
};
use crate::event::Side;
use crate::fixed::Px;
use crate::footprint::{CellView, MetricsShow};
use crate::sums::{lemma_sum_positive, lemma_sum_same, sum_upto};
use crate::text::ends;
use vstd::prelude::*;

verus! {

/// What each cell of a bucket shows.
pub open spec fn cell_terms(cells: Seq<CellView>, side: Side, bucket: int) -> spec_fn(int) -> int {
    |i: int|
        if cells[i].side == side && cells[i].bucket == bucket {
            cells[i].qty.0 as int
        } else {
            0int
        }
}

/// What a market shows in a bucket now.
pub open spec fn market_qty(v: MetricsShow, side: Side, bucket: int) -> int {
    if v.current.len() == 0 {
        0
    } else {
        sum_upto(v.current[0].cells.len() as int, cell_terms(v.current[0].cells, side, bucket))
    }
}

/// What each market shows in a bucket.
pub open spec fn market_terms(v: Seq<MetricsShow>, side: Side, bucket: int) -> spec_fn(
    int,
) -> int {
    |i: int| market_qty(v[i], side, bucket)
}

/// What some markets show in a bucket, in all.
pub open spec fn markets_qty(v: Seq<MetricsShow>, side: Side, bucket: int) -> int {
    sum_upto(v.len() as int, market_terms(v, side, bucket))
}

/// No two cells of the present candle are of the same bucket, and no quantity is negative.
pub open spec fn plain(v: MetricsShow) -> bool {
    v.current.len() > 0 ==> {
        let c = v.current[0].cells;
        &&& forall|i: int, j: int|
            #![trigger c[i], c[j]]
            0 <= i < j < c.len() ==> c[i].side != c[j].side || c[i].bucket != c[j].bucket
        &&& forall|i: int| 0 <= i < c.len() ==> 0 <= (#[trigger] c[i]).qty.0
    }
}

/// The same of all of them.
pub open spec fn all_plain(v: Seq<MetricsShow>) -> bool {
    forall|i: int| 0 <= i < v.len() ==> plain(#[trigger] v[i])
}

proof fn lemma_no_cell(cells: Seq<CellView>, side: Side, bucket: i64, n: int)
    requires
        0 <= n <= cells.len(),
        forall|i: int|
            0 <= i < n ==> (#[trigger] cells[i]).side != side || cells[i].bucket != bucket,
    ensures
        sum_upto(n, cell_terms(cells, side, bucket as int)) == 0,
    decreases n,
{
    if n > 0 {
        lemma_no_cell(cells, side, bucket, n - 1);
        assert(cells[n - 1].side != side || cells[n - 1].bucket != bucket);
    }
}

/// The sum up to `n` of terms that vanish from `m` on.
proof fn lemma_sum_tail(f: spec_fn(int) -> int, m: int, n: int)
    requires
        0 <= m <= n,
        forall|i: int| m <= i < n ==> #[trigger] f(i) == 0,
    ensures
        sum_upto(n, f) == sum_upto(m, f),
    decreases n - m,
{
    if m < n {
        lemma_sum_tail(f, m, n - 1);
        assert(f(n - 1) == 0);
    }
}

proof fn lemma_cell_qty(cells: Seq<CellView>, side: Side, bucket: i64, i: int)
    requires
        0 <= i <= cells.len(),
        forall|a: int, b: int|
            #![trigger cells[a], cells[b]]
            0 <= a < b < cells.len() ==> cells[a].side != cells[b].side || cells[a].bucket
                != cells[b].bucket,
        forall|a: int|
            0 <= a < i ==> (#[trigger] cells[a]).side != side || cells[a].bucket != bucket,
    ensures
        cell_qty(cells, side, bucket, i) == sum_upto(
            cells.len() as int,
            cell_terms(cells, side, bucket as int),
        ),
    decreases cells.len() - i,
{
    let f = cell_terms(cells, side, bucket as int);
    if i == cells.len() {
        lemma_no_cell(cells, side, bucket, i);
    } else if cells[i].side == side && cells[i].bucket == bucket {
        lemma_no_cell(cells, side, bucket, i);
        assert forall|j: int| i + 1 <= j < cells.len() implies #[trigger] f(j) == 0 by {
            assert(cells[i].side != cells[j].side || cells[i].bucket != cells[j].bucket);
        }
        lemma_sum_tail(f, i + 1, cells.len() as int);
    } else {
        lemma_cell_qty(cells, side, bucket, i + 1);
    }
}

proof fn lemma_bucket_qty(v: MetricsShow, side: Side, bucket: i64)
    requires
        plain(v),
    ensures
        bucket_qty(v, side, bucket) == market_qty(v, side, bucket as int),
        0 <= market_qty(v, side, bucket as int),
{
    if v.current.len() > 0 {
        let c = v.current[0].cells;
        lemma_cell_qty(c, side, bucket, 0);
        let f = cell_terms(c, side, bucket as int);
        assert forall|i: int| 0 <= i < c.len() implies 0 <= #[trigger] f(i) by {
            assert(0 <= c[i].qty.0);
        }
        lemma_sum_positive(c.len() as int, f);
    }
}

proof fn lemma_joint_qty(v: Seq<MetricsShow>, side: Side, bucket: i64)
    requires
        all_plain(v),
        markets_qty(v, side, bucket as int) <= i64::MAX,
    ensures
        joint_qty(v, side, bucket) == markets_qty(v, side, bucket as int),
        0 <= markets_qty(v, side, bucket as int),
    decreases v.len(),
{
    if v.len() > 0 {
        let u = v.drop_last();
        let f = market_terms(v, side, bucket as int);
        let g = market_terms(u, side, bucket as int);
        assert forall|i: int| 0 <= i < u.len() implies f(i) == #[trigger] g(i) by {
            assert(u[i] == v[i]);
        }
        lemma_sum_same(u.len() as int, f, g);
        assert(v.last() == v[v.len() - 1]);
        lemma_bucket_qty(v.last(), side, bucket);
        assert forall|i: int| 0 <= i < u.len() implies plain(#[trigger] u[i]) by {
            assert(u[i] == v[i]);
        }
        lemma_joint_qty(u, side, bucket);
    }
}

/// The pair at distance `k` compares the bids `k` buckets under that of the reference price
/// with the asks `k` buckets over it. Each quantity is what every market of its kind shows
/// there, added; the delta is both bids less both asks; and the pair is complete where both
/// buckets are inside the coverage of every market.
pub proof fn law_delta_compares_both_sides(
    spots: Seq<MetricsShow>,
    perps: Seq<MetricsShow>,
    ref_px: Px,
    width: Px,
    levels: nat,
    k: int,
)
    requires
        width.0 > 0,
        1 <= k <= levels,
        levels <= i64::MAX,
        all_plain(spots),
        all_plain(perps),
        ({
            let m = ref_px.0 as int / width.0 as int;
            &&& i64::MIN <= m - k && m + k <= i64::MAX
            &&& markets_qty(spots, Side::Bid, m - k) <= i64::MAX
            &&& markets_qty(perps, Side::Bid, m - k) <= i64::MAX
            &&& markets_qty(spots, Side::Ask, m + k) <= i64::MAX
            &&& markets_qty(perps, Side::Ask, m + k) <= i64::MAX
        }),
    ensures
        ({
            let c = cvd_of(spots, perps, ref_px, width, levels as int);
            let m = c.ref_bucket;
            let l = c.levels[k - 1];
            let delta = l.bid_spot.0 + l.bid_perp.0 - l.ask_spot.0 - l.ask_perp.0;
            &&& c.ref_px == ref_px
            &&& m * width.0 <= ref_px.0 < (m + 1) * width.0
            &&& c.levels.len() == levels
            &&& c.markets == spots.len() + perps.len()
            &&& l.k == k
            &&& l.bid_bucket == m - k
            &&& l.ask_bucket == m + k
            &&& l.bid_spot.0 == markets_qty(spots, Side::Bid, m - k)
            &&& l.bid_perp.0 == markets_qty(perps, Side::Bid, m - k)
            &&& l.ask_spot.0 == markets_qty(spots, Side::Ask, m + k)
            &&& l.ask_perp.0 == markets_qty(perps, Side::Ask, m + k)
            &&& i64::MIN <= delta <= i64::MAX ==> l.delta.0 == delta
            &&& l.complete <==> (forall|i: int|
                0 <= i < spots.len() + perps.len() ==> {
                    let v = #[trigger] (spots + perps)[i];
                    &&& v.bid_floor_bucket matches Some(f) ==> f < m - k
                    &&& v.ask_ceiling_bucket matches Some(g) ==> m + k < g
                })
        }),
{
    let p = ref_px.0 as int;
    let w = width.0 as int;
    let q = p / w;
    crate::candle_view_laws::law_price_is_in_its_bucket(ref_px, width);
    assert(i64::MIN <= q <= i64::MAX);
    let b = (q - k) as i64;
    let a = (q + k) as i64;
    lemma_joint_qty(spots, Side::Bid, b);
    lemma_joint_qty(perps, Side::Bid, b);
    lemma_joint_qty(spots, Side::Ask, a);
    lemma_joint_qty(perps, Side::Ask, a);
    let l = level_at(spots, perps, q as i64, k);
    let all = spots + perps;
    assert(cvd_of(spots, perps, ref_px, width, levels as int).levels[k - 1] == l);
    if l.complete {
        assert forall|i: int| 0 <= i < spots.len() + perps.len() implies {
            let v = #[trigger] all[i];
            &&& v.bid_floor_bucket matches Some(f) ==> f < q - k
            &&& v.ask_ceiling_bucket matches Some(g) ==> q + k < g
        } by {
            if i < spots.len() {
                assert(all[i] == spots[i]);
                assert(covered(spots[i], Side::Bid, b) && covered(spots[i], Side::Ask, a));
            } else {
                let j = i - spots.len();
                assert(all[i] == perps[j]);
                assert(covered(perps[j], Side::Bid, b) && covered(perps[j], Side::Ask, a));
            }
        }
    }
    if forall|i: int|
        0 <= i < spots.len() + perps.len() ==> {
            let v = #[trigger] all[i];
            &&& v.bid_floor_bucket matches Some(f) ==> f < q - k
            &&& v.ask_ceiling_bucket matches Some(g) ==> q + k < g
        } {
        assert forall|i: int| 0 <= i < spots.len() implies covered(
            #[trigger] spots[i],
            Side::Bid,
            b,
        ) && covered(spots[i], Side::Ask, a) by {
            assert(all[i] == spots[i]);
        }
        assert forall|i: int| 0 <= i < perps.len() implies covered(
            #[trigger] perps[i],
            Side::Bid,
            b,
        ) && covered(perps[i], Side::Ask, a) by {
            assert(all[spots.len() + i] == perps[i]);
        }
        assert(all_covered(spots, Side::Bid, b));
        assert(all_covered(spots, Side::Ask, a));
        assert(all_covered(perps, Side::Bid, b));
        assert(all_covered(perps, Side::Ask, a));
    }
}

/// The accumulated delta grows by the delta of each pair, from the first one, and the total
/// is that of the last one.
pub proof fn law_deltas_accumulate(
    spots: Seq<MetricsShow>,
    perps: Seq<MetricsShow>,
    ref_px: Px,
    width: Px,
    levels: nat,
    k: int,
)
    requires
        1 <= k <= levels,
    ensures
        ({
            let c = cvd_of(spots, perps, ref_px, width, levels as int);
            let before = if k == 1 {
                0
            } else {
                c.levels[k - 2].cum.0 as int
            };
            let sum = before + c.levels[k - 1].delta.0;
            &&& i64::MIN <= sum <= i64::MAX ==> c.levels[k - 1].cum.0 == sum
            &&& c.total == c.levels[levels - 1].cum
            &&& c.complete <==> (forall|i: int|
                0 <= i < levels ==> (#[trigger] c.levels[i]).complete)
        }),
{
    let c = cvd_of(spots, perps, ref_px, width, levels as int);
    let m = c.ref_bucket;
    assert(cum_at(spots, perps, m, 0) == 0);
    if k > 1 {
        assert(c.levels[k - 2] == level_at(spots, perps, m, k - 1));
    }
    assert(c.levels[k - 1] == level_at(spots, perps, m, k));
    assert(c.levels[levels - 1] == level_at(spots, perps, m, levels as int));
    if c.complete {
        assert forall|i: int| 0 <= i < levels implies (#[trigger] c.levels[i]).complete by {
            assert(level_at(spots, perps, m, i + 1).complete);
        }
    }
    if forall|i: int| 0 <= i < levels ==> (#[trigger] c.levels[i]).complete {
        assert forall|j: int| 1 <= j <= levels implies (#[trigger] level_at(
            spots,
            perps,
            m,
            j,
        )).complete by {
            assert(c.levels[j - 1].complete);
        }
    }
}

/// One market more changes what the markets show in a bucket by what it shows itself.
pub proof fn law_market_adds_its_own(
    v: Seq<MetricsShow>,
    one: MetricsShow,
    side: Side,
    bucket: i64,
)
    requires
        all_plain(v),
        plain(one),
        markets_qty(v.push(one), side, bucket as int) <= i64::MAX,
    ensures
        joint_qty(v.push(one), side, bucket) == joint_qty(v, side, bucket) + market_qty(
            one,
            side,
            bucket as int,
        ),
{
    let u = v.push(one);
    assert forall|i: int| 0 <= i < u.len() implies plain(#[trigger] u[i]) by {
        if i < v.len() {
            assert(u[i] == v[i]);
        }
    }
    lemma_joint_qty(u, side, bucket);
    assert(u.drop_last() =~= v);
    lemma_bucket_qty(one, side, bucket);
    let f = market_terms(u, side, bucket as int);
    let g = market_terms(v, side, bucket as int);
    assert forall|i: int| 0 <= i < v.len() implies f(i) == #[trigger] g(i) by {
        assert(u[i] == v[i]);
    }
    lemma_sum_same(v.len() as int, f, g);
    lemma_joint_qty(v, side, bucket);
}

proof fn lemma_markets_without(v: Seq<MetricsShow>, i: int, side: Side, bucket: int)
    requires
        0 <= i < v.len(),
    ensures
        markets_qty(v, side, bucket) == markets_qty(v.remove(i), side, bucket) + market_qty(
            v[i],
            side,
            bucket,
        ),
    decreases v.len(),
{
    let w = v.remove(i);
    let f = market_terms(v, side, bucket);
    let g = market_terms(w, side, bucket);
    if i == v.len() - 1 {
        assert forall|j: int| 0 <= j < w.len() implies f(j) == #[trigger] g(j) by {
            assert(w[j] == v[j]);
        }
        lemma_sum_same(w.len() as int, f, g);
    } else {
        let u = v.drop_last();
        lemma_markets_without(u, i, side, bucket);
        let x = u.remove(i);
        assert(w.drop_last() =~= x);
        let fu = market_terms(u, side, bucket);
        let gx = market_terms(x, side, bucket);
        assert forall|j: int| 0 <= j < u.len() implies f(j) == #[trigger] fu(j) by {
            assert(u[j] == v[j]);
        }
        lemma_sum_same(u.len() as int, f, fu);
        assert forall|j: int| 0 <= j < x.len() implies g(j) == #[trigger] gx(j) by {
            assert(x[j] == w.drop_last()[j]);
        }
        lemma_sum_same(x.len() as int, g, gx);
        assert(w[w.len() - 1] == v[v.len() - 1]);
        assert(sum_upto(v.len() as int, f) == sum_upto(u.len() as int, f) + f(v.len() - 1));
        assert(sum_upto(w.len() as int, g) == sum_upto(x.len() as int, g) + g(w.len() - 1));
    }
}

/// The order of the markets does not matter.
pub proof fn law_markets_in_any_order(
    v: Seq<MetricsShow>,
    w: Seq<MetricsShow>,
    side: Side,
    bucket: i64,
)
    requires
        v.to_multiset() == w.to_multiset(),
        all_plain(v),
        markets_qty(v, side, bucket as int) <= i64::MAX,
    ensures
        joint_qty(v, side, bucket) == joint_qty(w, side, bucket),
{
    broadcast use vstd::seq_lib::group_to_multiset_ensures;

    lemma_any_order(v, w, side, bucket as int);
    assert forall|i: int| 0 <= i < w.len() implies plain(#[trigger] w[i]) by {
        assert(w.to_multiset().contains(w[i]));
        assert(v.contains(w[i]));
        let j = choose|j: int| 0 <= j < v.len() && v[j] == w[i];
        assert(plain(v[j]));
    }
    lemma_joint_qty(v, side, bucket);
    lemma_joint_qty(w, side, bucket);
}

proof fn lemma_any_order(v: Seq<MetricsShow>, w: Seq<MetricsShow>, side: Side, bucket: int)
    requires
        v.to_multiset() == w.to_multiset(),
    ensures
        markets_qty(v, side, bucket) == markets_qty(w, side, bucket),
    decreases v.len(),
{
    broadcast use vstd::seq_lib::group_to_multiset_ensures;

    assert(v.len() == w.len()) by {
        assert(v.to_multiset().len() == v.len());
        assert(w.to_multiset().len() == w.len());
    }
    if v.len() > 0 {
        let n = v.len() - 1;
        assert(v.to_multiset().contains(v[n]));
        assert(w.contains(v[n]));
        let j = choose|j: int| 0 <= j < w.len() && w[j] == v[n];
        lemma_markets_without(v, n, side, bucket);
        lemma_markets_without(w, j, side, bucket);
        assert(v.remove(n).to_multiset() =~= v.to_multiset().remove(v[n]));
        assert(w.remove(j).to_multiset() =~= w.to_multiset().remove(w[j]));
        lemma_any_order(v.remove(n), w.remove(j), side, bucket);
    }
}

/// The times of the delta are those of its views: the oldest of each kind, and how far the
/// newest of all is from the oldest.
pub proof fn law_delta_tells_its_age(
    spots: Seq<MetricsShow>,
    perps: Seq<MetricsShow>,
    ref_px: Px,
    width: Px,
    levels: nat,
    i: int,
    j: int,
)
    requires
        0 <= i < spots.len(),
        0 <= j < perps.len(),
    ensures
        ({
            let c = cvd_of(spots, perps, ref_px, width, levels as int);
            let all = spots + perps;
            &&& c.spot_ts_ms <= spots[i].now_ms
            &&& exists|a: int| 0 <= a < spots.len() && (#[trigger] spots[a]).now_ms == c.spot_ts_ms
            &&& c.perp_ts_ms <= perps[j].now_ms
            &&& exists|a: int| 0 <= a < perps.len() && (#[trigger] perps[a]).now_ms == c.perp_ts_ms
            &&& spots[i].now_ms - perps[j].now_ms <= c.skew_ms
            &&& perps[j].now_ms - spots[i].now_ms <= c.skew_ms
            &&& exists|a: int, b: int|
                #![trigger all[a], all[b]]
                0 <= a < all.len() && 0 <= b < all.len() && c.skew_ms == all[a].now_ms
                    - all[b].now_ms
        }),
{
    let all = spots + perps;
    lemma_oldest(spots, i);
    lemma_oldest(perps, j);
    lemma_oldest(all, i);
    lemma_oldest(all, spots.len() + j);
    lemma_newest(all, i);
    lemma_newest(all, spots.len() + j);
    assert(all[i] == spots[i]);
    assert(all[spots.len() + j] == perps[j]);
}

proof fn lemma_oldest(v: Seq<MetricsShow>, i: int)
    requires
        0 <= i < v.len(),
    ensures
        oldest_of(v) <= v[i].now_ms,
        exists|a: int| 0 <= a < v.len() && (#[trigger] v[a]).now_ms == oldest_of(v),
    decreases v.len(),
{
    let u = v.drop_last();
    let n = v.len() - 1;
    assert(v[n] == v.last());
    if n > 0 {
        if i < n {
            assert(u[i] == v[i]);
            lemma_oldest(u, i);
        } else {
            lemma_oldest(u, 0);
        }
        let a = choose|a: int| 0 <= a < u.len() && (#[trigger] u[a]).now_ms == oldest_of(u);
        assert(v[a] == u[a]);
    }
}

proof fn lemma_newest(v: Seq<MetricsShow>, i: int)
    requires
        0 <= i < v.len(),
    ensures
        v[i].now_ms <= newest_of(v),
        exists|a: int| 0 <= a < v.len() && (#[trigger] v[a]).now_ms == newest_of(v),
    decreases v.len(),
{
    let u = v.drop_last();
    let n = v.len() - 1;
    assert(v[n] == v.last());
    if n > 0 {
        if i < n {
            assert(u[i] == v[i]);
            lemma_newest(u, i);
        } else {
            lemma_newest(u, 0);
        }
        let a = choose|a: int| 0 <= a < u.len() && (#[trigger] u[a]).now_ms == newest_of(u);
        assert(v[a] == u[a]);
    }
}

/// The live markets of a kind count, and no others: how many they are.
pub open spec fn live_terms(reg: Seq<CvdMarket<'_>>, word: Seq<char>) -> spec_fn(int) -> int {
    |i: int|
        if reg[i].live && ends(reg[i].key@, word) {
            1int
        } else {
            0int
        }
}

/// What the live markets of a kind show in a bucket.
pub open spec fn live_qty_terms(
    reg: Seq<CvdMarket<'_>>,
    word: Seq<char>,
    side: Side,
    bucket: int,
) -> spec_fn(int) -> int {
    |i: int|
        if reg[i].live && ends(reg[i].key@, word) {
            market_qty(reg[i].metrics@, side, bucket)
        } else {
            0int
        }
}

proof fn lemma_chosen(reg: Seq<CvdMarket<'_>>, word: Seq<char>, side: Side, bucket: int)
    ensures
        chosen(reg, word).len() == sum_upto(reg.len() as int, live_terms(reg, word)),
        markets_qty(chosen(reg, word), side, bucket) == sum_upto(
            reg.len() as int,
            live_qty_terms(reg, word, side, bucket),
        ),
        (forall|i: int| 0 <= i < reg.len() ==> plain((#[trigger] reg[i]).metrics@)) ==> all_plain(
            chosen(reg, word),
        ),
    decreases reg.len(),
{
    if reg.len() > 0 {
        let u = reg.drop_last();
        lemma_chosen(u, word, side, bucket);
        let f = live_terms(reg, word);
        let g = live_terms(u, word);
        let fq = live_qty_terms(reg, word, side, bucket);
        let gq = live_qty_terms(u, word, side, bucket);
        assert forall|i: int| 0 <= i < u.len() implies f(i) == #[trigger] g(i) by {
            assert(u[i] == reg[i]);
        }
        assert forall|i: int| 0 <= i < u.len() implies fq(i) == #[trigger] gq(i) by {
            assert(u[i] == reg[i]);
        }
        lemma_sum_same(u.len() as int, f, g);
        lemma_sum_same(u.len() as int, fq, gq);
        assert(reg.last() == reg[reg.len() - 1]);
        let c = chosen(reg, word);
        let d = chosen(u, word);
        if c.len() > d.len() {
            let h = market_terms(c, side, bucket);
            let k = market_terms(d, side, bucket);
            assert forall|i: int| 0 <= i < d.len() implies h(i) == #[trigger] k(i) by {
                assert(c[i] == d[i]);
            }
            lemma_sum_same(d.len() as int, h, k);
            assert(c[d.len() as int] == reg.last().metrics@);
        }
        if forall|i: int| 0 <= i < reg.len() ==> plain((#[trigger] reg[i]).metrics@) {
            assert forall|i: int| 0 <= i < u.len() implies plain((#[trigger] u[i]).metrics@) by {
                assert(u[i] == reg[i]);
            }
            assert forall|i: int| 0 <= i < c.len() implies plain(#[trigger] c[i]) by {
                if i < d.len() {
                    assert(c[i] == d[i]);
                }
            }
        }
    } else {
        assert(chosen(reg, word).len() == 0);
    }
}

/// The first live spot market with a mid price gives the reference.
proof fn lemma_reference(reg: Seq<CvdMarket<'_>>)
    ensures
        reference_px(reg) matches Some(px) ==> exists|i: int|
            0 <= i < reg.len() && (#[trigger] reg[i]).live && ends(reg[i].key@, "spot"@)
                && reg[i].mid == Some(px) && forall|j: int|
                0 <= j < i && (#[trigger] reg[j]).live && ends(reg[j].key@, "spot"@)
                    ==> reg[j].mid is None,
        reference_px(reg) is None ==> forall|j: int|
            0 <= j < reg.len() && (#[trigger] reg[j]).live && ends(reg[j].key@, "spot"@)
                ==> reg[j].mid is None,
    decreases reg.len(),
{
    if reg.len() > 0 {
        let u = reg.drop_last();
        lemma_reference(u);
        let n = reg.len() - 1;
        assert(reg.last() == reg[n]);
        assert forall|j: int| 0 <= j < n implies #[trigger] reg[j] == u[j] by {}
        if reference_px(u) is Some {
            let i = choose|i: int|
                0 <= i < u.len() && (#[trigger] u[i]).live && ends(u[i].key@, "spot"@) && u[i].mid
                    == reference_px(u) && forall|j: int|
                    0 <= j < i && (#[trigger] u[j]).live && ends(u[j].key@, "spot"@)
                        ==> u[j].mid is None;
            assert(reg[i] == u[i]);
            assert forall|j: int|
                0 <= j < i && (#[trigger] reg[j]).live && ends(
                    reg[j].key@,
                    "spot"@,
                ) implies reg[j].mid is None by {
                assert(u[j] == reg[j]);
            }
        } else {
            assert forall|j: int|
                0 <= j < n && (#[trigger] reg[j]).live && ends(
                    reg[j].key@,
                    "spot"@,
                ) implies reg[j].mid is None by {
                assert(u[j] == reg[j]);
            }
        }
    }
}

/// The delta of the node adds every live market of each kind, by the end of its key. It
/// needs one of each and a reference, which is the mid price of the first live spot market
/// that has one; and it has five pairs of buckets of one unit.
pub proof fn law_node_adds_every_live_market(reg: Seq<CvdMarket<'_>>, k: int)
    requires
        1 <= k <= 5,
        forall|i: int| 0 <= i < reg.len() ==> plain((#[trigger] reg[i]).metrics@),
    ensures
        ({
            let n = reg.len() as int;
            let spots = sum_upto(n, live_terms(reg, "spot"@));
            let perps = sum_upto(n, live_terms(reg, "perp"@));
            &&& node_cvd(reg) is Some <==> spots > 0 && perps > 0 && exists|i: int|
                0 <= i < n && (#[trigger] reg[i]).live && ends(reg[i].key@, "spot"@)
                    && reg[i].mid is Some
            &&& node_cvd(reg) matches Some(c) ==> {
                let m = c.ref_bucket;
                let l = c.levels[k - 1];
                let bs = sum_upto(n, live_qty_terms(reg, "spot"@, Side::Bid, m - k));
                let bp = sum_upto(n, live_qty_terms(reg, "perp"@, Side::Bid, m - k));
                let sa = sum_upto(n, live_qty_terms(reg, "spot"@, Side::Ask, m + k));
                let pa = sum_upto(n, live_qty_terms(reg, "perp"@, Side::Ask, m + k));
                &&& c.levels.len() == 5
                &&& c.markets == spots + perps
                &&& m * 100_000_000 <= c.ref_px.0 < (m + 1) * 100_000_000
                &&& exists|i: int|
                    0 <= i < n && (#[trigger] reg[i]).live && ends(reg[i].key@, "spot"@)
                        && reg[i].mid == Some(c.ref_px) && forall|j: int|
                        0 <= j < i && (#[trigger] reg[j]).live && ends(reg[j].key@, "spot"@)
                            ==> reg[j].mid is None
                &&& bs <= i64::MAX && bp <= i64::MAX && sa <= i64::MAX && pa <= i64::MAX
                    ==> l.bid_spot.0 == bs && l.bid_perp.0 == bp && l.ask_spot.0 == sa
                    && l.ask_perp.0 == pa
            }
        }),
{
    lemma_reference(reg);
    lemma_chosen(reg, "spot"@, Side::Bid, 0);
    lemma_chosen(reg, "perp"@, Side::Bid, 0);
    if let Some(c) = node_cvd(reg) {
        let spots = chosen(reg, "spot"@);
        let perps = chosen(reg, "perp"@);
        let m = c.ref_bucket as int;
        let w = Px(100_000_000);
        crate::candle_view_laws::law_price_is_in_its_bucket(c.ref_px, w);
        lemma_chosen(reg, "spot"@, Side::Bid, m - k);
        lemma_chosen(reg, "perp"@, Side::Bid, m - k);
        lemma_chosen(reg, "spot"@, Side::Ask, m + k);
        lemma_chosen(reg, "perp"@, Side::Ask, m + k);
        if markets_qty(spots, Side::Bid, m - k) <= i64::MAX && markets_qty(
            perps,
            Side::Bid,
            m - k,
        ) <= i64::MAX && markets_qty(spots, Side::Ask, m + k) <= i64::MAX && markets_qty(
            perps,
            Side::Ask,
            m + k,
        ) <= i64::MAX {
            law_delta_compares_both_sides(spots, perps, c.ref_px, w, 5, k);
        }
    }
}

} // verus!

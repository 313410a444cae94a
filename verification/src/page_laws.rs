//! What the page of figures says.

use crate::fixed::{fixed8, pow10, ParseFixedError};
use crate::number_laws::{law_decimal_is_its_digits, law_whole_is_its_digits};
use crate::sync::Phase;
use crate::telemetry::{escaped, labels_text, ms_text, sample_text, thousandths, MetricType};
use crate::text::{dec, int_text, lemma_dec_value, value};
use crate::view::{
    all_samples, book_samples, line_samples, lines_samples, market_samples, resync_samples,
    sim_samples, spread_samples, sync_samples, trade_samples, BookShow, BookView, LineView, Sample,
    SimChecks,
};
use vstd::prelude::*;

verus! {

/// A sample has a name, a type, labels and a value.
pub open spec fn says(
    s: Sample,
    name: Seq<char>,
    ty: MetricType,
    labels: Seq<(Seq<char>, Seq<char>)>,
    value: Seq<char>,
) -> bool {
    s.name == name && s.ty == ty && s.labels == labels && s.value == value
}

/// The samples of a book tell its own figures, each under its name.
pub proof fn law_book_samples_tell_the_book(v: BookShow)
    ensures
        book_samples(v).len() == 5,
        says(
            book_samples(v)[0],
            "lu_book_live"@,
            MetricType::Gauge,
            seq![("market"@, v.market)],
            int_text(
                if v.phase == Phase::Live {
                    1int
                } else {
                    0int
                },
            ),
        ),
        says(
            book_samples(v)[1],
            "lu_book_epoch"@,
            MetricType::Gauge,
            seq![("market"@, v.market)],
            int_text(v.epoch as int),
        ),
        says(
            book_samples(v)[2],
            "lu_book_age_ms"@,
            MetricType::Gauge,
            seq![("market"@, v.market)],
            int_text(v.book_age_ms as int),
        ),
        says(
            book_samples(v)[3],
            "lu_book_levels"@,
            MetricType::Gauge,
            seq![("market"@, v.market), ("side"@, "bid"@)],
            int_text(v.levels.0 as int),
        ),
        says(
            book_samples(v)[4],
            "lu_book_levels"@,
            MetricType::Gauge,
            seq![("market"@, v.market), ("side"@, "ask"@)],
            int_text(v.levels.1 as int),
        ),
{
}

/// The samples of the synchronisation tell its own counters, each under its name.
pub proof fn law_sync_samples_tell_the_counters(v: BookShow)
    ensures
        sync_samples(v).len() == 14,
        says(
            sync_samples(v)[0],
            "lu_book_pending"@,
            MetricType::Gauge,
            seq![("market"@, v.market)],
            int_text(v.pending as int),
        ),
        says(
            sync_samples(v)[1],
            "lu_book_off_tick_total"@,
            MetricType::Counter,
            seq![("market"@, v.market)],
            int_text(v.off_tick_levels as int),
        ),
        says(
            sync_samples(v)[2],
            "lu_sync_diffs_rx_total"@,
            MetricType::Counter,
            seq![("market"@, v.market)],
            int_text(v.sync.diffs_rx as int),
        ),
        says(
            sync_samples(v)[3],
            "lu_sync_applied_total"@,
            MetricType::Counter,
            seq![("market"@, v.market)],
            int_text(v.sync.applied as int),
        ),
        says(
            sync_samples(v)[4],
            "lu_sync_stale_total"@,
            MetricType::Counter,
            seq![("market"@, v.market)],
            int_text(v.sync.stale as int),
        ),
        says(
            sync_samples(v)[5],
            "lu_sync_ahead_total"@,
            MetricType::Counter,
            seq![("market"@, v.market)],
            int_text(v.sync.ahead as int),
        ),
        says(
            sync_samples(v)[6],
            "lu_sync_reordered_total"@,
            MetricType::Counter,
            seq![("market"@, v.market)],
            int_text(v.sync.reordered_applied as int),
        ),
        says(
            sync_samples(v)[7],
            "lu_sync_snapshots_requested_total"@,
            MetricType::Counter,
            seq![("market"@, v.market)],
            int_text(v.sync.snapshots_requested as int),
        ),
        says(
            sync_samples(v)[8],
            "lu_sync_snapshots_unbridgeable_total"@,
            MetricType::Counter,
            seq![("market"@, v.market)],
            int_text(v.sync.snapshots_unbridgeable as int),
        ),
        says(
            sync_samples(v)[9],
            "lu_sync_crossed_total"@,
            MetricType::Counter,
            seq![("market"@, v.market)],
            int_text(v.sync.crossed_seen as int),
        ),
        says(
            sync_samples(v)[10],
            "lu_sync_pre_snapshot_total"@,
            MetricType::Counter,
            seq![("market"@, v.market)],
            int_text(v.sync.pre_snapshot as int),
        ),
        says(
            sync_samples(v)[11],
            "lu_sync_invalid_dropped_total"@,
            MetricType::Counter,
            seq![("market"@, v.market)],
            int_text(v.sync.invalid_dropped as int),
        ),
        says(
            sync_samples(v)[12],
            "lu_sync_buffer_dropped_total"@,
            MetricType::Counter,
            seq![("market"@, v.market)],
            int_text(v.sync.buffer_dropped as int),
        ),
        says(
            sync_samples(v)[13],
            "lu_sync_unaccounted"@,
            MetricType::Gauge,
            seq![("market"@, v.market)],
            int_text(v.unaccounted as int),
        ),
{
}

/// The samples of the losses tell each reason its own counter.
pub proof fn law_resync_samples_tell_each_reason(v: BookShow)
    ensures
        resync_samples(v).len() == 5,
        says(
            resync_samples(v)[0],
            "lu_sync_resync_total"@,
            MetricType::Counter,
            seq![("market"@, v.market), ("reason"@, "gap_timeout"@)],
            int_text(v.sync.resync_gap_timeout as int),
        ),
        says(
            resync_samples(v)[1],
            "lu_sync_resync_total"@,
            MetricType::Counter,
            seq![("market"@, v.market), ("reason"@, "pending_overflow"@)],
            int_text(v.sync.resync_pending_overflow as int),
        ),
        says(
            resync_samples(v)[2],
            "lu_sync_resync_total"@,
            MetricType::Counter,
            seq![("market"@, v.market), ("reason"@, "invalid_sequence"@)],
            int_text(v.sync.resync_invalid_sequence as int),
        ),
        says(
            resync_samples(v)[3],
            "lu_sync_resync_total"@,
            MetricType::Counter,
            seq![("market"@, v.market), ("reason"@, "crossed"@)],
            int_text(v.sync.resync_crossed as int),
        ),
        says(
            resync_samples(v)[4],
            "lu_sync_resync_total"@,
            MetricType::Counter,
            seq![("market"@, v.market), ("reason"@, "manual"@)],
            int_text(v.sync.resync_manual as int),
        ),
{
}

/// The samples of the trades and of the ingestion tell their own counters.
pub proof fn law_trade_samples_tell_the_counters(v: BookShow)
    ensures
        trade_samples(v).len() == 7,
        says(
            trade_samples(v)[0],
            "lu_trades_unique_total"@,
            MetricType::Counter,
            seq![("market"@, v.market)],
            int_text(v.trades.unique as int),
        ),
        says(
            trade_samples(v)[1],
            "lu_trades_with_nq_total"@,
            MetricType::Counter,
            seq![("market"@, v.market)],
            int_text(v.trades.with_nq as int),
        ),
        says(
            trade_samples(v)[2],
            "lu_trades_dup_total"@,
            MetricType::Counter,
            seq![("market"@, v.market)],
            int_text(v.trades.dup as int),
        ),
        says(
            trade_samples(v)[3],
            "lu_flow_unaccounted"@,
            MetricType::Gauge,
            seq![("market"@, v.market)],
            int_text(v.flow.unaccounted as int),
        ),
        says(
            trade_samples(v)[4],
            "lu_ingest_dropped_total"@,
            MetricType::Counter,
            seq![("market"@, v.market)],
            int_text(v.ingest_dropped as int),
        ),
        says(
            trade_samples(v)[5],
            "lu_parse_errors_total"@,
            MetricType::Counter,
            seq![("market"@, v.market)],
            int_text(v.parse_errors as int),
        ),
        says(
            trade_samples(v)[6],
            "lu_rest_weight_1m"@,
            MetricType::Gauge,
            seq![("market"@, v.market)],
            int_text(v.rest_weight_1m as int),
        ),
{
}

/// The samples of a simulation tell the checks that agreed and those that did not.
pub proof fn law_sim_samples_tell_the_checks(m: Seq<char>, c: SimChecks)
    ensures
        sim_samples(m, c).len() == 2,
        says(
            sim_samples(m, c)[0],
            "lu_sim_checks_total"@,
            MetricType::Counter,
            seq![("market"@, m), ("result"@, "ok"@)],
            int_text(c.checks_ok as int),
        ),
        says(
            sim_samples(m, c)[1],
            "lu_sim_checks_total"@,
            MetricType::Counter,
            seq![("market"@, m), ("result"@, "mismatch"@)],
            int_text(c.checks_mismatch as int),
        ),
{
}

/// The samples of a line tell its own connections, counters and latencies, by stream and by
/// quantile, in milliseconds.
pub proof fn law_line_samples_tell_the_line(m: Seq<char>, lv: LineView)
    ensures
        ({
            let s = line_samples(m, lv);
            let li = int_text(lv.line as int);
            let ll = seq![("market"@, m), ("line"@, li)];
            &&& s.len() == 12
            &&& says(
                s[0],
                "lu_line_up"@,
                MetricType::Gauge,
                ll.push(("stream"@, "depth"@)),
                int_text(if lv.depth_up { 1 } else { 0 }),
            )
            &&& says(
                s[1],
                "lu_line_up"@,
                MetricType::Gauge,
                ll.push(("stream"@, "trade"@)),
                int_text(if lv.trade_up { 1 } else { 0 }),
            )
            &&& says(
                s[2],
                "lu_line_depth_first_total"@,
                MetricType::Counter,
                ll,
                int_text(lv.depth_first as int),
            )
            &&& says(
                s[3],
                "lu_line_depth_dup_total"@,
                MetricType::Counter,
                ll,
                int_text(lv.depth_dup as int),
            )
            &&& says(
                s[4],
                "lu_line_trades_first_total"@,
                MetricType::Counter,
                ll,
                int_text(lv.trades_first as int),
            )
            &&& says(
                s[5],
                "lu_line_disconnects_total"@,
                MetricType::Counter,
                ll,
                int_text(lv.disconnects as int),
            )
            &&& says(
                s[6],
                "lu_line_latency_ms"@,
                MetricType::Gauge,
                ll.push(("stream"@, "depth"@)).push(("quantile"@, "0.5"@)),
                ms_text(lv.depth_latency.p50_us),
            )
            &&& says(
                s[7],
                "lu_line_latency_ms"@,
                MetricType::Gauge,
                ll.push(("stream"@, "depth"@)).push(("quantile"@, "0.99"@)),
                ms_text(lv.depth_latency.p99_us),
            )
            &&& says(
                s[8],
                "lu_line_latency_ms"@,
                MetricType::Gauge,
                ll.push(("stream"@, "depth"@)).push(("quantile"@, "0.999"@)),
                ms_text(lv.depth_latency.p999_us),
            )
            &&& says(
                s[9],
                "lu_line_latency_ms"@,
                MetricType::Gauge,
                ll.push(("stream"@, "trade"@)).push(("quantile"@, "0.5"@)),
                ms_text(lv.trade_latency.p50_us),
            )
            &&& says(
                s[10],
                "lu_line_latency_ms"@,
                MetricType::Gauge,
                ll.push(("stream"@, "trade"@)).push(("quantile"@, "0.99"@)),
                ms_text(lv.trade_latency.p99_us),
            )
            &&& says(
                s[11],
                "lu_line_latency_ms"@,
                MetricType::Gauge,
                ll.push(("stream"@, "trade"@)).push(("quantile"@, "0.999"@)),
                ms_text(lv.trade_latency.p999_us),
            )
        }),
{
    let s = line_samples(m, lv);
    let li = int_text(lv.line as int);
    let ll = seq![("market"@, m), ("line"@, li)];
    assert(ll.push(("stream"@, "depth"@)) == seq![("market"@, m), ("line"@, li), ("stream"@, "depth"@)]);
    assert(ll.push(("stream"@, "trade"@)) == seq![("market"@, m), ("line"@, li), ("stream"@, "trade"@)]);
    assert(s[6].labels == ll.push(("stream"@, "depth"@)).push(("quantile"@, "0.5"@)));
    assert(s[7].labels == ll.push(("stream"@, "depth"@)).push(("quantile"@, "0.99"@)));
    assert(s[8].labels == ll.push(("stream"@, "depth"@)).push(("quantile"@, "0.999"@)));
    assert(s[9].labels == ll.push(("stream"@, "trade"@)).push(("quantile"@, "0.5"@)));
    assert(s[10].labels == ll.push(("stream"@, "trade"@)).push(("quantile"@, "0.99"@)));
    assert(s[11].labels == ll.push(("stream"@, "trade"@)).push(("quantile"@, "0.999"@)));
}

/// The page of a market has all of its samples: book, spread, synchronisation, losses, lines
/// in use and trades.
pub proof fn law_page_has_every_sample(v: BookShow)
    ensures
        ({
            let p = market_samples(v);
            &&& forall|i: int| 0 <= i < book_samples(v).len()
                ==> p.contains(#[trigger] book_samples(v)[i])
            &&& forall|i: int| 0 <= i < spread_samples(v).len()
                ==> p.contains(#[trigger] spread_samples(v)[i])
            &&& forall|i: int| 0 <= i < sync_samples(v).len()
                ==> p.contains(#[trigger] sync_samples(v)[i])
            &&& forall|i: int| 0 <= i < resync_samples(v).len()
                ==> p.contains(#[trigger] resync_samples(v)[i])
            &&& forall|i: int| 0 <= i < trade_samples(v).len()
                ==> p.contains(#[trigger] trade_samples(v)[i])
            &&& forall|l: int, i: int|
                #![trigger v.lines[l], line_samples(v.market, v.lines[l])[i]]
                0 <= l < v.lines.len() && used(v.lines[l]) && 0 <= i < line_samples(v.market, v.lines[l]).len()
                    ==> p.contains(line_samples(v.market, v.lines[l])[i])
        }),
{
    let a = book_samples(v);
    let b = spread_samples(v);
    let c = sync_samples(v);
    let d = resync_samples(v);
    let e = lines_samples(v.market, v.lines);
    let f = trade_samples(v);
    let p = market_samples(v);
    assert forall|i: int| 0 <= i < a.len() implies p.contains(#[trigger] a[i]) by {
        assert(p[i] == a[i]);
    }
    assert forall|i: int| 0 <= i < b.len() implies p.contains(#[trigger] b[i]) by {
        assert(p[a.len() + i] == b[i]);
    }
    assert forall|i: int| 0 <= i < c.len() implies p.contains(#[trigger] c[i]) by {
        assert(p[a.len() + b.len() + i] == c[i]);
    }
    assert forall|i: int| 0 <= i < d.len() implies p.contains(#[trigger] d[i]) by {
        assert(p[a.len() + b.len() + c.len() + i] == d[i]);
    }
    assert forall|i: int| 0 <= i < f.len() implies p.contains(#[trigger] f[i]) by {
        assert(p[a.len() + b.len() + c.len() + d.len() + e.len() + i] == f[i]);
    }
    assert forall|i: int| 0 <= i < e.len() implies p.contains(#[trigger] e[i]) by {
        assert(p[a.len() + b.len() + c.len() + d.len() + i] == e[i]);
    }
    assert forall|l: int, i: int|
        #![trigger v.lines[l], line_samples(v.market, v.lines[l])[i]]
        0 <= l < v.lines.len() && used(v.lines[l]) && 0 <= i < line_samples(v.market, v.lines[l]).len() implies p.contains(
        line_samples(v.market, v.lines[l])[i],
    ) by {
        lemma_line_told(v.market, v.lines, l, i);
        let k = choose|k: int| 0 <= k < e.len() && e[k] == line_samples(v.market, v.lines[l])[i];
        assert(p.contains(e[k]));
    }
}

/// A line has done something, or is connected.
pub open spec fn used(l: LineView) -> bool {
    l.depth_first > 0 || l.depth_dup > 0 || l.trades_first > 0 || l.depth_up || l.trade_up
}

proof fn lemma_line_told(m: Seq<char>, lines: Seq<LineView>, l: int, i: int)
    requires
        0 <= l < lines.len(),
        used(lines[l]),
        0 <= i < line_samples(m, lines[l]).len(),
    ensures
        exists|k: int|
            0 <= k < lines_samples(m, lines).len() && #[trigger] lines_samples(m, lines)[k]
                == line_samples(m, lines[l])[i],
    decreases lines.len(),
{
    let f = lines.drop_last();
    let e = lines_samples(m, lines);
    if l < f.len() {
        lemma_line_told(m, f, l, i);
        let k = choose|k: int|
            0 <= k < lines_samples(m, f).len() && #[trigger] lines_samples(m, f)[k]
                == line_samples(m, f[l])[i];
        assert(e[k] == lines_samples(m, f)[k]);
    } else {
        assert(e[lines_samples(m, f).len() + i] == line_samples(m, lines[l])[i]);
    }
}

/// The page of some markets has every sample of each.
pub proof fn law_page_has_every_market(views: Seq<&BookView>, j: int, i: int)
    requires
        0 <= j < views.len(),
        0 <= i < market_samples(views[j]@).len(),
    ensures
        exists|k: int|
            0 <= k < all_samples(views).len() && #[trigger] all_samples(views)[k]
                == market_samples(views[j]@)[i],
    decreases views.len(),
{
    let f = views.drop_last();
    let e = all_samples(views);
    if j < f.len() {
        law_page_has_every_market(f, j, i);
        let k = choose|k: int|
            0 <= k < all_samples(f).len() && #[trigger] all_samples(f)[k] == market_samples(
                f[j]@,
            )[i];
        assert(e[k] == all_samples(f)[k]);
    } else {
        assert(e[all_samples(f).len() + i] == market_samples(views[j]@)[i]);
    }
}

/// Milliseconds are written exactly: read as a decimal they are the microseconds.
pub proof fn law_milliseconds_are_exact(us: u64)
    requires
        us <= 90_000_000_000_000,
    ensures
        fixed8(ms_text(us)) == Ok::<i64, ParseFixedError>((us * 100_000) as i64),
{
    let w = (us / 1000) as nat;
    let f = (us % 1000) as int;
    let a = dec(w);
    lemma_dec_value(w);
    reveal_with_fuel(pow10, 9);
    if f == 0 {
        assert(ms_text(us) == a);
        law_whole_is_its_digits(a);
    } else {
        let x = f / 100;
        let y = f / 10 % 10;
        let z = f % 10;
        let d = |k: int| (48 + k) as char;
        let b = if y == 0 && z == 0 {
            seq![d(x)]
        } else if z == 0 {
            seq![d(x), d(y)]
        } else {
            seq![d(x), d(y), d(z)]
        };
        assert(thousandths(f) == seq!['.'] + b);
        assert(ms_text(us) == a + seq!['.'] + b);
        reveal_with_fuel(value, 4);
        if y == 0 && z == 0 {
            assert(b.drop_last() == Seq::<char>::empty());
            assert(value(b) == x);
        } else if z == 0 {
            assert(b.drop_last() == seq![d(x)]);
            assert(b.drop_last().drop_last() == Seq::<char>::empty());
            assert(value(b) == 10 * x + y);
        } else {
            assert(b.drop_last() == seq![d(x), d(y)]);
            assert(b.drop_last().drop_last() == seq![d(x)]);
            assert(b.drop_last().drop_last().drop_last() == Seq::<char>::empty());
            assert(value(b) == 100 * x + 10 * y + z);
        }
        assert(f == 100 * x + 10 * y + z);
        let k = pow10((8 - b.len()) as nat);
        assert(pow10(5) == 10_0000 && pow10(6) == 100_0000 && pow10(7) == 1000_0000);
        assert(value(b) * k == f * 10_0000) by (nonlinear_arith)
            requires
                (value(b) == x && k == 1000_0000 && f == 100 * x) || (value(b) == 10 * x + y && k
                    == 100_0000 && f == 100 * x + 10 * y) || (value(b) == f && k == 10_0000),
        ;
        law_decimal_is_its_digits(a, b);
    }
}

/// A sample is written as its name, its labels in braces and its value, on a line of its own.
pub proof fn law_sample_is_a_line(
    name: Seq<char>,
    labels: Seq<(Seq<char>, Seq<char>)>,
    value: Seq<char>,
)
    ensures
        labels.len() == 0 ==> sample_text(name, labels, value) == name + seq![' '] + value + seq![
            '\n',
        ],
        labels.len() > 0 ==> sample_text(name, labels, value) == name + seq!['{'] + labels_text(
            labels,
        ) + seq!['}', ' '] + value + seq!['\n'],
        labels.len() == 1 ==> labels_text(labels) == labels[0].0 + seq!['=', '"'] + escaped(
            labels[0].1,
        ) + seq!['"'],
        labels.len() == 2 ==> labels_text(labels) == labels[0].0 + seq!['=', '"'] + escaped(
            labels[0].1,
        ) + seq!['"', ','] + labels[1].0 + seq!['=', '"'] + escaped(labels[1].1) + seq!['"'],
{
    reveal_strlit(" ");
    reveal_strlit("\n");
    if labels.len() == 2 {
        assert(labels.drop_last().len() == 1 && labels.drop_last()[0] == labels[0]);
        assert(labels.last() == labels[1]);
        reveal_with_fuel(labels_text, 2);
    }
}

/// No label breaks its line, and one without marks is written as it is.
pub proof fn law_labels_stay_on_their_line(t: Seq<char>)
    ensures
        forall|i: int| 0 <= i < escaped(t).len() ==> #[trigger] escaped(t)[i] != '\n',
        (forall|i: int|
            0 <= i < t.len() ==> #[trigger] t[i] != '\n' && t[i] != '"' && t[i] != '\\') ==> escaped(
            t,
        ) == t,
        escaped(t).len() >= t.len(),
    decreases t.len(),
{
    if t.len() > 0 {
        let f = t.drop_last();
        law_labels_stay_on_their_line(f);
        assert(forall|i: int| 0 <= i < f.len() ==> f[i] == t[i]);
        assert(t[t.len() - 1] == t.last());
    }
}

} // verus!

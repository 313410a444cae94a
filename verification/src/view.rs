//! Immutable views that each engine publishes, and their exposition for Prometheus.

use crate::book::Coverage;
use crate::fixed::{Px, Qty};
use crate::flow::{flow_blank, FlowShow, FlowView};
use crate::sync::{Phase, StatsView, SyncStats, MAX_LINES};
use crate::telemetry::{
    law_declared_once, ms_text, sample_next, us_to_ms, MetricType, PromState, PromWriter,
};
use crate::text::{int_text, push_int};
use vstd::prelude::*;

verus! {

/// Level to be shown.
#[derive(Debug, Clone, Copy, PartialEq, Eq, Structural)]
pub struct LevelView {
    /// Price.
    pub px: Px,
    /// Quantity.
    pub qty: Qty,
}

/// Summary of latencies (µs).
#[derive(Debug, Clone, Copy, PartialEq, Eq, Structural)]
pub struct LatencySummary {
    /// Latencies recorded.
    pub count: u64,
    /// Negative ones, discarded (the local clock is ahead of the exchange).
    pub negatives: u64,
    /// Median.
    pub p50_us: u64,
    /// 90th percentile.
    pub p90_us: u64,
    /// 99th percentile.
    pub p99_us: u64,
    /// 99.9th percentile.
    pub p999_us: u64,
    /// The highest.
    pub max_us: u64,
}

impl LatencySummary {
    /// Nothing recorded.
    pub open spec fn zero() -> LatencySummary {
        LatencySummary {
            count: 0,
            negatives: 0,
            p50_us: 0,
            p90_us: 0,
            p99_us: 0,
            p999_us: 0,
            max_us: 0,
        }
    }
}

impl Default for LatencySummary {
    fn default() -> (r: Self)
        ensures
            r == LatencySummary::zero(),
    {
        LatencySummary {
            count: 0,
            negatives: 0,
            p50_us: 0,
            p90_us: 0,
            p99_us: 0,
            p999_us: 0,
            max_us: 0,
        }
    }
}

/// State of a redundant line.
#[derive(Debug, Clone, Copy, PartialEq, Eq, Structural)]
pub struct LineView {
    /// Index (0 is A).
    pub line: u8,
    /// The depth connection is up.
    pub depth_up: bool,
    /// The trade connection is up (a separate endpoint for futures).
    pub trade_up: bool,
    /// Latency from the exchange to the reception of diffs.
    pub depth_latency: LatencySummary,
    /// Latency from the exchange to the reception of trades.
    pub trade_latency: LatencySummary,
    /// Diffs applied that came first by this line.
    pub depth_first: u64,
    /// Duplicate diffs of this line, discarded.
    pub depth_dup: u64,
    /// Trades that came first by this line.
    pub trades_first: u64,
    /// Disconnections.
    pub disconnects: u64,
}

impl LineView {
    /// A line of which nothing is known yet.
    pub open spec fn blank(line: u8) -> LineView {
        LineView {
            line,
            depth_up: false,
            trade_up: false,
            depth_latency: LatencySummary::zero(),
            trade_latency: LatencySummary::zero(),
            depth_first: 0,
            depth_dup: 0,
            trades_first: 0,
            disconnects: 0,
        }
    }

    /// The line has done something, or is connected.
    pub open spec fn used(self) -> bool {
        self.depth_first > 0 || self.depth_dup > 0 || self.trades_first > 0 || self.depth_up
            || self.trade_up
    }
}

/// Summary of trades.
#[derive(Debug, Clone, Copy, PartialEq, Eq, Structural)]
pub struct TradeView {
    /// Trades received (all lines).
    pub rx: u64,
    /// Duplicates across lines, discarded.
    pub dup: u64,
    /// Unique trades.
    pub unique: u64,
    /// Real fills.
    pub fills: u64,
    /// Volume of aggressive buyers.
    pub buy_qty: Qty,
    /// Volume of aggressive sellers.
    pub sell_qty: Qty,
    /// Volume executed against hidden retail orders (futures only).
    pub rpi_qty: Qty,
    /// Unique trades that tell their normal quantity (0: the venue does not in this stream).
    pub with_nq: u64,
    /// Last price.
    pub last_px: Option<Px>,
}

impl TradeView {
    /// No trade yet.
    pub open spec fn zero() -> TradeView {
        TradeView {
            rx: 0,
            dup: 0,
            unique: 0,
            fills: 0,
            buy_qty: Qty(0),
            sell_qty: Qty(0),
            rpi_qty: Qty(0),
            with_nq: 0,
            last_px: None,
        }
    }
}

impl Default for TradeView {
    fn default() -> (r: Self)
        ensures
            r == TradeView::zero(),
    {
        TradeView {
            rx: 0,
            dup: 0,
            unique: 0,
            fills: 0,
            buy_qty: Qty(0),
            sell_qty: Qty(0),
            rpi_qty: Qty(0),
            with_nq: 0,
            last_px: None,
        }
    }
}

/// Complete view of a market.
pub struct BookView {
    /// `binance.spot.SOLUSDT`.
    pub market: String,
    /// Phase.
    pub phase: Phase,
    /// Epoch (rebuilds from a snapshot).
    pub epoch: u64,
    /// Last update id applied.
    pub last_update_id: u64,
    /// Exchange time of the last diff applied (ms).
    pub exch_ts_ms: u64,
    /// Age of the book by the local clock (ms).
    pub book_age_ms: i64,
    /// Best bid.
    pub best_bid: Option<LevelView>,
    /// Best ask.
    pub best_ask: Option<LevelView>,
    /// Mid price.
    pub mid: Option<Px>,
    /// Spread in basis points, as it is shown.
    pub spread_bps: Option<String>,
    /// Top of the bids.
    pub top_bids: Vec<LevelView>,
    /// Top of the asks.
    pub top_asks: Vec<LevelView>,
    /// Levels per side.
    pub levels: (usize, usize),
    /// Coverage that the snapshot guarantees.
    pub coverage: Coverage,
    /// Price step of the instrument, where its rules came.
    pub tick: Option<Px>,
    /// Quantity step.
    pub step: Option<Qty>,
    /// Prices off the step that were seen (quality of the feed).
    pub off_tick_levels: u64,
    /// Diffs held waiting for a missing one.
    pub pending: usize,
    /// Diffs in the synchronisation buffer.
    pub buffer: usize,
    /// Conservation of messages (must be 0).
    pub unaccounted: i64,
    /// Counters of synchronisation.
    pub sync: SyncStats,
    /// Lines.
    pub lines: Vec<LineView>,
    /// Trades.
    pub trades: TradeView,
    /// Flows by level.
    pub flow: FlowView,
    /// Events discarded because the queue was full.
    pub ingest_dropped: u64,
    /// Frames that could not be read.
    pub parse_errors: u64,
    /// REST weight used in the last minute.
    pub rest_weight_1m: u32,
    /// When it was published (UNIX ms).
    pub published_wall_ms: u64,
}

/// What a [`BookView`] shows.
#[verifier::ext_equal]
pub struct BookShow {
    /// `binance.spot.SOLUSDT`.
    pub market: Seq<char>,
    /// Phase.
    pub phase: Phase,
    /// Epoch (rebuilds from a snapshot).
    pub epoch: u64,
    /// Last update id applied.
    pub last_update_id: u64,
    /// Exchange time of the last diff applied (ms).
    pub exch_ts_ms: u64,
    /// Age of the book by the local clock (ms).
    pub book_age_ms: i64,
    /// Best bid.
    pub best_bid: Option<LevelView>,
    /// Best ask.
    pub best_ask: Option<LevelView>,
    /// Mid price.
    pub mid: Option<Px>,
    /// Spread in basis points, as it is shown.
    pub spread_bps: Option<Seq<char>>,
    /// Top of the bids.
    pub top_bids: Seq<LevelView>,
    /// Top of the asks.
    pub top_asks: Seq<LevelView>,
    /// Levels per side.
    pub levels: (usize, usize),
    /// Coverage that the snapshot guarantees.
    pub coverage: Coverage,
    /// Price step of the instrument, where its rules came.
    pub tick: Option<Px>,
    /// Quantity step.
    pub step: Option<Qty>,
    /// Prices off the step that were seen (quality of the feed).
    pub off_tick_levels: u64,
    /// Diffs held waiting for a missing one.
    pub pending: usize,
    /// Diffs in the synchronisation buffer.
    pub buffer: usize,
    /// Conservation of messages (must be 0).
    pub unaccounted: i64,
    /// Counters of synchronisation.
    pub sync: StatsView,
    /// Lines.
    pub lines: Seq<LineView>,
    /// Trades.
    pub trades: TradeView,
    /// Flows by level.
    pub flow: FlowShow,
    /// Events discarded because the queue was full.
    pub ingest_dropped: u64,
    /// Frames that could not be read.
    pub parse_errors: u64,
    /// REST weight used in the last minute.
    pub rest_weight_1m: u32,
    /// When it was published (UNIX ms).
    pub published_wall_ms: u64,
}

impl View for BookView {
    type V = BookShow;

    open spec fn view(&self) -> BookShow {
        BookShow {
            market: self.market@,
            phase: self.phase,
            epoch: self.epoch,
            last_update_id: self.last_update_id,
            exch_ts_ms: self.exch_ts_ms,
            book_age_ms: self.book_age_ms,
            best_bid: self.best_bid,
            best_ask: self.best_ask,
            mid: self.mid,
            spread_bps: match self.spread_bps {
                Some(t) => Some(t@),
                None => None,
            },
            top_bids: self.top_bids@,
            top_asks: self.top_asks@,
            levels: self.levels,
            coverage: self.coverage,
            tick: self.tick,
            step: self.step,
            off_tick_levels: self.off_tick_levels,
            pending: self.pending,
            buffer: self.buffer,
            unaccounted: self.unaccounted,
            sync: self.sync@,
            lines: self.lines@,
            trades: self.trades,
            flow: self.flow@,
            ingest_dropped: self.ingest_dropped,
            parse_errors: self.parse_errors,
            rest_weight_1m: self.rest_weight_1m,
            published_wall_ms: self.published_wall_ms,
        }
    }
}

/// A market of which nothing is known yet.
pub open spec fn blank(market: Seq<char>) -> BookShow {
    BookShow {
        market,
        phase: Phase::Syncing,
        epoch: 0,
        last_update_id: 0,
        exch_ts_ms: 0,
        book_age_ms: 0,
        best_bid: None,
        best_ask: None,
        mid: None,
        spread_bps: None,
        top_bids: Seq::empty(),
        top_asks: Seq::empty(),
        levels: (0, 0),
        coverage: Coverage { bid_floor: None, ask_ceiling: None },
        tick: None,
        step: None,
        off_tick_levels: 0,
        pending: 0,
        buffer: 0,
        unaccounted: 0,
        sync: StatsView::zero(),
        lines: Seq::new(MAX_LINES as nat, |i: int| LineView::blank(i as u8)),
        trades: TradeView::zero(),
        flow: flow_blank(),
        ingest_dropped: 0,
        parse_errors: 0,
        rest_weight_1m: 0,
        published_wall_ms: 0,
    }
}

impl BookView {
    /// The first view, with nothing in it.
    pub fn empty(market: String) -> (r: Self)
        ensures
            r@ == blank(market@),
    {
        let mut lines: Vec<LineView> = Vec::new();
        let mut i: u8 = 0;
        while i < MAX_LINES as u8
            invariant
                i <= MAX_LINES,
                lines@.len() == i,
                forall|j: int| 0 <= j < i ==> lines@[j] == LineView::blank(j as u8),
            decreases MAX_LINES - i,
        {
            lines.push(
                LineView {
                    line: i,
                    depth_up: false,
                    trade_up: false,
                    depth_latency: LatencySummary::default(),
                    trade_latency: LatencySummary::default(),
                    depth_first: 0,
                    depth_dup: 0,
                    trades_first: 0,
                    disconnects: 0,
                },
            );
            i += 1;
        }
        let r = BookView {
            market,
            phase: Phase::Syncing,
            epoch: 0,
            last_update_id: 0,
            exch_ts_ms: 0,
            book_age_ms: 0,
            best_bid: None,
            best_ask: None,
            mid: None,
            spread_bps: None,
            top_bids: Vec::new(),
            top_asks: Vec::new(),
            levels: (0, 0),
            coverage: Coverage::default(),
            tick: None,
            step: None,
            off_tick_levels: 0,
            pending: 0,
            buffer: 0,
            unaccounted: 0,
            sync: SyncStats::zero(),
            lines,
            trades: TradeView::default(),
            flow: FlowView::default(),
            ingest_dropped: 0,
            parse_errors: 0,
            rest_weight_1m: 0,
            published_wall_ms: 0,
        };
        assert(r@ =~= blank(market@));
        r
    }
}

/// A sample of a metric.
#[verifier::ext_equal]
pub struct Sample {
    /// Name of the metric.
    pub name: Seq<char>,
    /// What it is.
    pub help: Seq<char>,
    /// Its kind.
    pub ty: MetricType,
    /// Labels.
    pub labels: Seq<(Seq<char>, Seq<char>)>,
    /// The number as it is shown.
    pub value: Seq<char>,
}

/// The text after some samples.
pub open spec fn written(v: Seq<Sample>) -> PromState
    decreases v.len(),
{
    if v.len() == 0 {
        PromState { out: Seq::empty(), declared: Seq::empty() }
    } else {
        let x = v.last();
        sample_next(written(v.drop_last()), x.name, x.help, x.ty, x.labels, x.value)
    }
}

/// A page declares each of its metrics, and none twice.
pub proof fn law_page_declares_once(v: Seq<Sample>)
    ensures
        written(v).declared.no_duplicates(),
        forall|i: int| 0 <= i < v.len() ==> written(v).declared.contains(#[trigger] v[i].name),
    decreases v.len(),
{
    if v.len() > 0 {
        let t = v.drop_last();
        let x = v.last();
        law_page_declares_once(t);
        law_declared_once(written(t), x.name, x.help, x.ty, x.labels, x.value);
        assert forall|i: int| 0 <= i < v.len() implies written(v).declared.contains(
            #[trigger] v[i].name,
        ) by {
            if i < t.len() {
                assert(t[i] == v[i]);
                let j = choose|j: int|
                    0 <= j < written(t).declared.len() && written(t).declared[j] == v[i].name;
                assert(written(v).declared[j] == v[i].name);
            }
        }
    }
}

/// A number as it is shown: 1 for true.
pub open spec fn flag(b: bool) -> int {
    if b {
        1
    } else {
        0
    }
}

/// A sample whose value is a whole number.
pub open spec fn whole(
    name: Seq<char>,
    help: Seq<char>,
    ty: MetricType,
    labels: Seq<(Seq<char>, Seq<char>)>,
    n: int,
) -> Sample {
    Sample { name, help, ty, labels, value: int_text(n) }
}

/// The samples of some lines.
pub open spec fn lines_samples(m: Seq<char>, lines: Seq<LineView>) -> Seq<Sample>
    decreases lines.len(),
{
    if lines.len() == 0 {
        Seq::empty()
    } else {
        lines_samples(m, lines.drop_last()) + (if lines.last().used() {
            line_samples(m, lines.last())
        } else {
            Seq::empty()
        })
    }
}

/// The samples of the spread, where there is one.
pub open spec fn spread_samples(v: BookShow) -> Seq<Sample> {
    match v.spread_bps {
        Some(s) => seq![
            Sample {
                name: "lu_book_spread_bps"@,
                help: "spread en bps"@,
                ty: MetricType::Gauge,
                labels: seq![("market"@, v.market)],
                value: s,
            },
        ],
        None => Seq::empty(),
    }
}

/// The samples of a market.
pub open spec fn market_samples(v: BookShow) -> Seq<Sample> {
    book_samples(v) + spread_samples(v) + sync_samples(v) + resync_samples(v) + lines_samples(
        v.market,
        v.lines,
    ) + trade_samples(v)
}

/// The samples of some markets.
pub open spec fn all_samples(views: Seq<&BookView>) -> Seq<Sample>
    decreases views.len(),
{
    if views.len() == 0 {
        Seq::empty()
    } else {
        all_samples(views.drop_last()) + market_samples(views.last()@)
    }
}

/// A page in the making.
struct Page {
    w: PromWriter,
    done: Ghost<Seq<Sample>>,
}

impl Page {
    spec fn wf(self) -> bool {
        self.w.content() == written(self.done@)
    }

    fn new() -> (r: Page)
        ensures
            r.wf(),
            r.done@ == Seq::<Sample>::empty(),
    {
        Page { w: PromWriter::new(), done: Ghost(Seq::empty()) }
    }

    /// Writes a sample.
    fn put(
        &mut self,
        name: &'static str,
        help: &str,
        ty: MetricType,
        labels: &[(&str, &str)],
        value: &str,
    )
        requires
            old(self).wf(),
        ensures
            final(self).wf(),
            final(self).done@ == old(self).done@.push(
                Sample {
                    name: name@,
                    help: help@,
                    ty,
                    labels: labels.deep_view(),
                    value: value@,
                },
            ),
    {
        let ghost x = Sample {
            name: name@,
            help: help@,
            ty,
            labels: labels.deep_view(),
            value: value@,
        };
        self.w.sample(name, help, ty, labels, value);
        proof {
            assert(self.done@.push(x).drop_last() =~= self.done@);
            self.done@ = self.done@.push(x);
        }
    }

    /// Writes a whole number of a market.
    fn market(&mut self, name: &'static str, help: &str, ty: MetricType, m: &str, n: i128)
        requires
            old(self).wf(),
        ensures
            final(self).wf(),
            final(self).done@ == old(self).done@.push(
                whole(name@, help@, ty, seq![("market"@, m@)], n as int),
            ),
    {
        let labels = [("market", m)];
        let mut t = String::new();
        push_int(&mut t, n);
        self.put(name, help, ty, &labels, t.as_str());
        assert(labels.deep_view() =~= seq![("market"@, m@)]);
        assert(t@ =~= int_text(n as int));
    }

    /// Writes a whole number of a market with one label more.
    fn market_with(
        &mut self,
        name: &'static str,
        help: &str,
        ty: MetricType,
        m: &str,
        key: &str,
        word: &str,
        n: i128,
    )
        requires
            old(self).wf(),
        ensures
            final(self).wf(),
            final(self).done@ == old(self).done@.push(
                whole(name@, help@, ty, seq![("market"@, m@), (key@, word@)], n as int),
            ),
    {
        let labels = [("market", m), (key, word)];
        let mut t = String::new();
        push_int(&mut t, n);
        self.put(name, help, ty, &labels, t.as_str());
        assert(labels.deep_view() =~= seq![("market"@, m@), (key@, word@)]);
        assert(t@ =~= int_text(n as int));
    }

    /// Writes whether a line of a market is connected.
    fn line_up(&mut self, m: &str, li: &str, stream: &str, up: bool)
        requires
            old(self).wf(),
        ensures
            final(self).wf(),
            final(self).done@ == old(self).done@.push(up_sample(m@, li@, stream@, up)),
    {
        let labels = [("market", m), ("line", li), ("stream", stream)];
        let value = if up {
            "1"
        } else {
            "0"
        };
        self.put("lu_line_up", "línea conectada", MetricType::Gauge, &labels, value);
        proof {
            reveal_strlit("1");
            reveal_strlit("0");
            assert(labels.deep_view() =~= seq![
                ("market"@, m@),
                ("line"@, li@),
                ("stream"@, stream@),
            ]);
            assert(value@ =~= int_text(flag(up)));
        }
    }

    /// Writes the quantiles of a latency.
    fn latency(&mut self, m: &str, li: &str, stream: &str, lat: &LatencySummary)
        requires
            old(self).wf(),
        ensures
            final(self).wf(),
            final(self).done@ == old(self).done@ + latency_samples(m@, li@, stream@, *lat),
    {
        let ghost before = self.done@;
        self.quantile(m, li, stream, "0.5", lat.p50_us);
        self.quantile(m, li, stream, "0.99", lat.p99_us);
        self.quantile(m, li, stream, "0.999", lat.p999_us);
        assert(self.done@ =~= before + latency_samples(m@, li@, stream@, *lat));
    }

    fn quantile(&mut self, m: &str, li: &str, stream: &str, q: &str, us: u64)
        requires
            old(self).wf(),
        ensures
            final(self).wf(),
            final(self).done@ == old(self).done@.push(
                quantile_sample(m@, li@, stream@, q@, us),
            ),
    {
        let labels = [("market", m), ("line", li), ("stream", stream), ("quantile", q)];
        let value = us_to_ms(us);
        self.put(
            "lu_line_latency_ms",
            "latencia exchange→recepción",
            MetricType::Gauge,
            &labels,
            value.as_str(),
        );
        assert(labels.deep_view() =~= seq![
            ("market"@, m@),
            ("line"@, li@),
            ("stream"@, stream@),
            ("quantile"@, q@),
        ]);
    }
}

/// Whether a line of a market is connected.
pub open spec fn up_sample(m: Seq<char>, li: Seq<char>, stream: Seq<char>, up: bool) -> Sample {
    whole(
        "lu_line_up"@,
        "línea conectada"@,
        MetricType::Gauge,
        seq![("market"@, m), ("line"@, li), ("stream"@, stream)],
        flag(up),
    )
}

/// One quantile of a latency, in ms.
pub open spec fn quantile_sample(
    m: Seq<char>,
    li: Seq<char>,
    stream: Seq<char>,
    q: Seq<char>,
    us: u64,
) -> Sample {
    Sample {
        name: "lu_line_latency_ms"@,
        help: "latencia exchange→recepción"@,
        ty: MetricType::Gauge,
        labels: seq![("market"@, m), ("line"@, li), ("stream"@, stream), ("quantile"@, q)],
        value: ms_text(us),
    }
}

/// The quantiles of a latency.
pub open spec fn latency_samples(
    m: Seq<char>,
    li: Seq<char>,
    stream: Seq<char>,
    lat: LatencySummary,
) -> Seq<Sample> {
    seq![
        quantile_sample(m, li, stream, "0.5"@, lat.p50_us),
        quantile_sample(m, li, stream, "0.99"@, lat.p99_us),
        quantile_sample(m, li, stream, "0.999"@, lat.p999_us),
    ]
}

/// The samples of the book of a market.
pub open spec fn book_samples(v: BookShow) -> Seq<Sample> {
    seq![
        whole(
            "lu_book_live"@,
            "1 si el libro está sincronizado"@,
            MetricType::Gauge,
            seq![("market"@, v.market)],
            flag(v.phase == Phase::Live),
        ),
        whole(
            "lu_book_epoch"@,
            "reconstrucciones desde snapshot"@,
            MetricType::Gauge,
            seq![("market"@, v.market)],
            v.epoch as int,
        ),
        whole(
            "lu_book_age_ms"@,
            "antigüedad del último diff aplicado"@,
            MetricType::Gauge,
            seq![("market"@, v.market)],
            v.book_age_ms as int,
        ),
        whole(
            "lu_book_levels"@,
            "niveles por lado"@,
            MetricType::Gauge,
            seq![("market"@, v.market), ("side"@, "bid"@)],
            v.levels.0 as int,
        ),
        whole(
            "lu_book_levels"@,
            "niveles por lado"@,
            MetricType::Gauge,
            seq![("market"@, v.market), ("side"@, "ask"@)],
            v.levels.1 as int,
        ),
    ]
}

fn put_book(p: &mut Page, v: &BookView)
    requires
        old(p).wf(),
    ensures
        final(p).wf(),
        final(p).done@ == old(p).done@ + book_samples(v@),
{
    let m = v.market.as_str();
    let ghost before = p.done@;
    p.market(
        "lu_book_live",
        "1 si el libro está sincronizado",
        MetricType::Gauge,
        m,
        if v.phase == Phase::Live {
            1
        } else {
            0
        },
    );
    p.market(
        "lu_book_epoch",
        "reconstrucciones desde snapshot",
        MetricType::Gauge,
        m,
        v.epoch as i128,
    );
    p.market(
        "lu_book_age_ms",
        "antigüedad del último diff aplicado",
        MetricType::Gauge,
        m,
        v.book_age_ms as i128,
    );
    p.market_with(
        "lu_book_levels",
        "niveles por lado",
        MetricType::Gauge,
        m,
        "side",
        "bid",
        v.levels.0 as i128,
    );
    p.market_with(
        "lu_book_levels",
        "niveles por lado",
        MetricType::Gauge,
        m,
        "side",
        "ask",
        v.levels.1 as i128,
    );
    assert(p.done@ =~= before + book_samples(v@));
}

/// The samples of the synchronisation of a market.
pub open spec fn sync_samples(v: BookShow) -> Seq<Sample> {
    seq![
        whole(
            "lu_book_pending"@,
            "diffs retenidos esperando faltante"@,
            MetricType::Gauge,
            seq![("market"@, v.market)],
            v.pending as int,
        ),
        whole(
            "lu_book_off_tick_total"@,
            "precios fuera de tick"@,
            MetricType::Counter,
            seq![("market"@, v.market)],
            v.off_tick_levels as int,
        ),
        whole(
            "lu_sync_diffs_rx_total"@,
            "diffs recibidos"@,
            MetricType::Counter,
            seq![("market"@, v.market)],
            v.sync.diffs_rx as int,
        ),
        whole(
            "lu_sync_applied_total"@,
            "diffs aplicados"@,
            MetricType::Counter,
            seq![("market"@, v.market)],
            v.sync.applied as int,
        ),
        whole(
            "lu_sync_stale_total"@,
            "diffs duplicados/obsoletos"@,
            MetricType::Counter,
            seq![("market"@, v.market)],
            v.sync.stale as int,
        ),
        whole(
            "lu_sync_ahead_total"@,
            "diffs adelantados retenidos"@,
            MetricType::Counter,
            seq![("market"@, v.market)],
            v.sync.ahead as int,
        ),
        whole(
            "lu_sync_reordered_total"@,
            "reordenamientos recuperados"@,
            MetricType::Counter,
            seq![("market"@, v.market)],
            v.sync.reordered_applied as int,
        ),
        whole(
            "lu_sync_snapshots_requested_total"@,
            "snapshots pedidos"@,
            MetricType::Counter,
            seq![("market"@, v.market)],
            v.sync.snapshots_requested as int,
        ),
        whole(
            "lu_sync_snapshots_unbridgeable_total"@,
            "snapshots no puenteables"@,
            MetricType::Counter,
            seq![("market"@, v.market)],
            v.sync.snapshots_unbridgeable as int,
        ),
        whole(
            "lu_sync_crossed_total"@,
            "libro cruzado observado"@,
            MetricType::Counter,
            seq![("market"@, v.market)],
            v.sync.crossed_seen as int,
        ),
        whole(
            "lu_sync_pre_snapshot_total"@,
            "diffs previos al snapshot descartados (regla oficial)"@,
            MetricType::Counter,
            seq![("market"@, v.market)],
            v.sync.pre_snapshot as int,
        ),
        whole(
            "lu_sync_invalid_dropped_total"@,
            "diffs con secuencia imposible"@,
            MetricType::Counter,
            seq![("market"@, v.market)],
            v.sync.invalid_dropped as int,
        ),
        whole(
            "lu_sync_buffer_dropped_total"@,
            "diffs perdidos por desborde del buffer"@,
            MetricType::Counter,
            seq![("market"@, v.market)],
            v.sync.buffer_dropped as int,
        ),
        whole(
            "lu_sync_unaccounted"@,
            "ley de conservación de mensajes (debe ser 0)"@,
            MetricType::Gauge,
            seq![("market"@, v.market)],
            v.unaccounted as int,
        ),
    ]
}

fn put_sync(p: &mut Page, v: &BookView)
    requires
        old(p).wf(),
    ensures
        final(p).wf(),
        final(p).done@ == old(p).done@ + sync_samples(v@),
{
    let m = v.market.as_str();
    let ghost before = p.done@;
    p.market(
        "lu_book_pending",
        "diffs retenidos esperando faltante",
        MetricType::Gauge,
        m,
        v.pending as i128,
    );
    p.market(
        "lu_book_off_tick_total",
        "precios fuera de tick",
        MetricType::Counter,
        m,
        v.off_tick_levels as i128,
    );
    p.market(
        "lu_sync_diffs_rx_total",
        "diffs recibidos",
        MetricType::Counter,
        m,
        v.sync.diffs_rx as i128,
    );
    p.market(
        "lu_sync_applied_total",
        "diffs aplicados",
        MetricType::Counter,
        m,
        v.sync.applied as i128,
    );
    p.market(
        "lu_sync_stale_total",
        "diffs duplicados/obsoletos",
        MetricType::Counter,
        m,
        v.sync.stale as i128,
    );
    p.market(
        "lu_sync_ahead_total",
        "diffs adelantados retenidos",
        MetricType::Counter,
        m,
        v.sync.ahead as i128,
    );
    p.market(
        "lu_sync_reordered_total",
        "reordenamientos recuperados",
        MetricType::Counter,
        m,
        v.sync.reordered_applied as i128,
    );
    p.market(
        "lu_sync_snapshots_requested_total",
        "snapshots pedidos",
        MetricType::Counter,
        m,
        v.sync.snapshots_requested as i128,
    );
    p.market(
        "lu_sync_snapshots_unbridgeable_total",
        "snapshots no puenteables",
        MetricType::Counter,
        m,
        v.sync.snapshots_unbridgeable as i128,
    );
    p.market(
        "lu_sync_crossed_total",
        "libro cruzado observado",
        MetricType::Counter,
        m,
        v.sync.crossed_seen as i128,
    );
    p.market(
        "lu_sync_pre_snapshot_total",
        "diffs previos al snapshot descartados (regla oficial)",
        MetricType::Counter,
        m,
        v.sync.pre_snapshot as i128,
    );
    p.market(
        "lu_sync_invalid_dropped_total",
        "diffs con secuencia imposible",
        MetricType::Counter,
        m,
        v.sync.invalid_dropped as i128,
    );
    p.market(
        "lu_sync_buffer_dropped_total",
        "diffs perdidos por desborde del buffer",
        MetricType::Counter,
        m,
        v.sync.buffer_dropped as i128,
    );
    p.market(
        "lu_sync_unaccounted",
        "ley de conservación de mensajes (debe ser 0)",
        MetricType::Gauge,
        m,
        v.unaccounted as i128,
    );
    assert(p.done@ =~= before + sync_samples(v@));
}

/// The resynchronisations of a market, by reason.
pub open spec fn resync_samples(v: BookShow) -> Seq<Sample> {
    seq![
        whole(
            "lu_sync_resync_total"@,
            "resincronizaciones"@,
            MetricType::Counter,
            seq![("market"@, v.market), ("reason"@, "gap_timeout"@)],
            v.sync.resync_gap_timeout as int,
        ),
        whole(
            "lu_sync_resync_total"@,
            "resincronizaciones"@,
            MetricType::Counter,
            seq![("market"@, v.market), ("reason"@, "pending_overflow"@)],
            v.sync.resync_pending_overflow as int,
        ),
        whole(
            "lu_sync_resync_total"@,
            "resincronizaciones"@,
            MetricType::Counter,
            seq![("market"@, v.market), ("reason"@, "invalid_sequence"@)],
            v.sync.resync_invalid_sequence as int,
        ),
        whole(
            "lu_sync_resync_total"@,
            "resincronizaciones"@,
            MetricType::Counter,
            seq![("market"@, v.market), ("reason"@, "crossed"@)],
            v.sync.resync_crossed as int,
        ),
        whole(
            "lu_sync_resync_total"@,
            "resincronizaciones"@,
            MetricType::Counter,
            seq![("market"@, v.market), ("reason"@, "manual"@)],
            v.sync.resync_manual as int,
        ),
    ]
}

fn put_resyncs(p: &mut Page, v: &BookView)
    requires
        old(p).wf(),
    ensures
        final(p).wf(),
        final(p).done@ == old(p).done@ + resync_samples(v@),
{
    let m = v.market.as_str();
    let ghost before = p.done@;
    p.market_with(
        "lu_sync_resync_total",
        "resincronizaciones",
        MetricType::Counter,
        m,
        "reason",
        "gap_timeout",
        v.sync.resync_gap_timeout as i128,
    );
    p.market_with(
        "lu_sync_resync_total",
        "resincronizaciones",
        MetricType::Counter,
        m,
        "reason",
        "pending_overflow",
        v.sync.resync_pending_overflow as i128,
    );
    p.market_with(
        "lu_sync_resync_total",
        "resincronizaciones",
        MetricType::Counter,
        m,
        "reason",
        "invalid_sequence",
        v.sync.resync_invalid_sequence as i128,
    );
    p.market_with(
        "lu_sync_resync_total",
        "resincronizaciones",
        MetricType::Counter,
        m,
        "reason",
        "crossed",
        v.sync.resync_crossed as i128,
    );
    p.market_with(
        "lu_sync_resync_total",
        "resincronizaciones",
        MetricType::Counter,
        m,
        "reason",
        "manual",
        v.sync.resync_manual as i128,
    );
    assert(p.done@ =~= before + resync_samples(v@));
}

/// The samples of the trades and of the ingestion of a market.
pub open spec fn trade_samples(v: BookShow) -> Seq<Sample> {
    seq![
        whole(
            "lu_trades_unique_total"@,
            "trades únicos"@,
            MetricType::Counter,
            seq![("market"@, v.market)],
            v.trades.unique as int,
        ),
        whole(
            "lu_trades_with_nq_total"@,
            "trades que informan nq (RPI)"@,
            MetricType::Counter,
            seq![("market"@, v.market)],
            v.trades.with_nq as int,
        ),
        whole(
            "lu_trades_dup_total"@,
            "trades duplicados A/B"@,
            MetricType::Counter,
            seq![("market"@, v.market)],
            v.trades.dup as int,
        ),
        whole(
            "lu_flow_unaccounted"@,
            "ley de conservación de trades (debe ser 0)"@,
            MetricType::Gauge,
            seq![("market"@, v.market)],
            v.flow.unaccounted as int,
        ),
        whole(
            "lu_ingest_dropped_total"@,
            "eventos descartados por cola llena"@,
            MetricType::Counter,
            seq![("market"@, v.market)],
            v.ingest_dropped as int,
        ),
        whole(
            "lu_parse_errors_total"@,
            "frames no parseables"@,
            MetricType::Counter,
            seq![("market"@, v.market)],
            v.parse_errors as int,
        ),
        whole(
            "lu_rest_weight_1m"@,
            "peso REST usado (Binance)"@,
            MetricType::Gauge,
            seq![("market"@, v.market)],
            v.rest_weight_1m as int,
        ),
    ]
}

fn put_trades(p: &mut Page, v: &BookView)
    requires
        old(p).wf(),
    ensures
        final(p).wf(),
        final(p).done@ == old(p).done@ + trade_samples(v@),
{
    let m = v.market.as_str();
    let ghost before = p.done@;
    p.market(
        "lu_trades_unique_total",
        "trades únicos",
        MetricType::Counter,
        m,
        v.trades.unique as i128,
    );
    p.market(
        "lu_trades_with_nq_total",
        "trades que informan nq (RPI)",
        MetricType::Counter,
        m,
        v.trades.with_nq as i128,
    );
    p.market(
        "lu_trades_dup_total",
        "trades duplicados A/B",
        MetricType::Counter,
        m,
        v.trades.dup as i128,
    );
    p.market(
        "lu_flow_unaccounted",
        "ley de conservación de trades (debe ser 0)",
        MetricType::Gauge,
        m,
        v.flow.unaccounted as i128,
    );
    p.market(
        "lu_ingest_dropped_total",
        "eventos descartados por cola llena",
        MetricType::Counter,
        m,
        v.ingest_dropped as i128,
    );
    p.market(
        "lu_parse_errors_total",
        "frames no parseables",
        MetricType::Counter,
        m,
        v.parse_errors as i128,
    );
    p.market(
        "lu_rest_weight_1m",
        "peso REST usado (Binance)",
        MetricType::Gauge,
        m,
        v.rest_weight_1m as i128,
    );
    assert(p.done@ =~= before + trade_samples(v@));
}

/// The samples of a line of a market.
pub open spec fn line_samples(m: Seq<char>, lv: LineView) -> Seq<Sample> {
    let li = int_text(lv.line as int);
    let ll = seq![("market"@, m), ("line"@, li)];
    seq![
        up_sample(m, li, "depth"@, lv.depth_up),
        up_sample(m, li, "trade"@, lv.trade_up),
        whole(
            "lu_line_depth_first_total"@,
            "diffs ganados por la línea"@,
            MetricType::Counter,
            ll,
            lv.depth_first as int,
        ),
        whole(
            "lu_line_depth_dup_total"@,
            "diffs duplicados de la línea"@,
            MetricType::Counter,
            ll,
            lv.depth_dup as int,
        ),
        whole(
            "lu_line_trades_first_total"@,
            "trades ganados por la línea"@,
            MetricType::Counter,
            ll,
            lv.trades_first as int,
        ),
        whole(
            "lu_line_disconnects_total"@,
            "desconexiones"@,
            MetricType::Counter,
            ll,
            lv.disconnects as int,
        ),
    ] + latency_samples(m, li, "depth"@, lv.depth_latency) + latency_samples(
        m,
        li,
        "trade"@,
        lv.trade_latency,
    )
}

fn put_line(p: &mut Page, m: &str, lv: &LineView)
    requires
        old(p).wf(),
    ensures
        final(p).wf(),
        final(p).done@ == old(p).done@ + line_samples(m@, *lv),
{
    let ghost before = p.done@;
    let mut t = String::new();
    push_int(&mut t, lv.line as i128);
    assert(t@ =~= int_text(lv.line as int));
    let li = t.as_str();
    p.line_up(m, li, "depth", lv.depth_up);
    p.line_up(m, li, "trade", lv.trade_up);
    p.market_with(
        "lu_line_depth_first_total",
        "diffs ganados por la línea",
        MetricType::Counter,
        m,
        "line",
        li,
        lv.depth_first as i128,
    );
    p.market_with(
        "lu_line_depth_dup_total",
        "diffs duplicados de la línea",
        MetricType::Counter,
        m,
        "line",
        li,
        lv.depth_dup as i128,
    );
    p.market_with(
        "lu_line_trades_first_total",
        "trades ganados por la línea",
        MetricType::Counter,
        m,
        "line",
        li,
        lv.trades_first as i128,
    );
    p.market_with(
        "lu_line_disconnects_total",
        "desconexiones",
        MetricType::Counter,
        m,
        "line",
        li,
        lv.disconnects as i128,
    );
    p.latency(m, li, "depth", &lv.depth_latency);
    p.latency(m, li, "trade", &lv.trade_latency);
    assert(p.done@ =~= before + line_samples(m@, *lv));
}

fn put_lines(p: &mut Page, v: &BookView)
    requires
        old(p).wf(),
    ensures
        final(p).wf(),
        final(p).done@ == old(p).done@ + lines_samples(v.market@, v.lines@),
{
    let m = v.market.as_str();
    let ghost before = p.done@;
    let mut i: usize = 0;
    assert(before + lines_samples(m@, v.lines@.take(0)) =~= before);
    while i < v.lines.len()
        invariant
            i <= v.lines@.len(),
            p.wf(),
            p.done@ == before + lines_samples(m@, v.lines@.take(i as int)),
        decreases v.lines@.len() - i,
    {
        let lv = &v.lines[i];
        assert(v.lines@.take(i + 1).drop_last() =~= v.lines@.take(i as int));
        let ghost was = p.done@;
        if lv.depth_first > 0 || lv.depth_dup > 0 || lv.trades_first > 0 || lv.depth_up
            || lv.trade_up {
            put_line(p, m, lv);
        }
        i += 1;
        assert(p.done@ =~= before + lines_samples(m@, v.lines@.take(i as int)));
    }
    assert(v.lines@.take(i as int) =~= v.lines@);
}

fn put_market(p: &mut Page, v: &BookView)
    requires
        old(p).wf(),
    ensures
        final(p).wf(),
        final(p).done@ == old(p).done@ + market_samples(v@),
{
    let ghost before = p.done@;
    put_book(p, v);
    if let Some(s) = &v.spread_bps {
        let labels = [("market", v.market.as_str())];
        p.put("lu_book_spread_bps", "spread en bps", MetricType::Gauge, &labels, s.as_str());
        assert(labels.deep_view() =~= seq![("market"@, v@.market)]);
    }
    assert(p.done@ =~= before + book_samples(v@) + spread_samples(v@));
    put_sync(p, v);
    put_resyncs(p, v);
    put_lines(p, v);
    put_trades(p, v);
    assert(p.done@ =~= before + market_samples(v@));
}

/// The Prometheus text of all the markets.
pub fn render_prometheus(views: &[&BookView]) -> (r: String)
    ensures
        r@ == written(all_samples(views@)).out,
{
    let mut p = Page::new();
    let mut i: usize = 0;
    assert(all_samples(views@.take(0)) =~= Seq::<Sample>::empty());
    while i < views.len()
        invariant
            i <= views@.len(),
            p.wf(),
            p.done@ == all_samples(views@.take(i as int)),
        decreases views@.len() - i,
    {
        assert(views@.take(i + 1).drop_last() =~= views@.take(i as int));
        put_market(&mut p, views[i]);
        i += 1;
    }
    assert(views@.take(i as int) =~= views@);
    p.w.finish()
}

/// What the simulation counts of a market.
#[derive(Debug, Clone, Copy, PartialEq, Eq, Structural)]
pub struct SimChecks {
    /// Comparisons of the published book with the truth that agreed.
    pub checks_ok: u64,
    /// Comparisons that did not (must be 0).
    pub checks_mismatch: u64,
}

/// The samples of the simulation of a market.
pub open spec fn sim_samples(m: Seq<char>, c: SimChecks) -> Seq<Sample> {
    seq![
        whole(
            "lu_sim_checks_total"@,
            "comparaciones del libro publicado con la verdad"@,
            MetricType::Counter,
            seq![("market"@, m), ("result"@, "ok"@)],
            c.checks_ok as int,
        ),
        whole(
            "lu_sim_checks_total"@,
            "comparaciones del libro publicado con la verdad"@,
            MetricType::Counter,
            seq![("market"@, m), ("result"@, "mismatch"@)],
            c.checks_mismatch as int,
        ),
    ]
}

/// The samples of the simulation of some markets.
pub open spec fn all_sim_samples(sims: Seq<(Seq<char>, SimChecks)>) -> Seq<Sample>
    decreases sims.len(),
{
    if sims.len() == 0 {
        Seq::empty()
    } else {
        all_sim_samples(sims.drop_last()) + sim_samples(sims.last().0, sims.last().1)
    }
}

/// Some markets with the counters of their simulation.
pub open spec fn sims_seen(v: Seq<(&str, SimChecks)>) -> Seq<(Seq<char>, SimChecks)> {
    Seq::new(v.len(), |i: int| (v[i].0@, v[i].1))
}

/// The Prometheus text of the simulation.
pub fn render_sim(sims: &[(&str, SimChecks)]) -> (r: String)
    ensures
        r@ == written(all_sim_samples(sims_seen(sims@))).out,
{
    let mut p = Page::new();
    let ghost s = sims_seen(sims@);
    let mut i: usize = 0;
    assert(all_sim_samples(s.take(0)) =~= Seq::<Sample>::empty());
    while i < sims.len()
        invariant
            i <= sims@.len(),
            s == sims_seen(sims@),
            p.wf(),
            p.done@ == all_sim_samples(s.take(i as int)),
        decreases sims@.len() - i,
    {
        assert(s.take(i + 1).drop_last() =~= s.take(i as int));
        let ghost was = p.done@;
        let (m, c) = sims[i];
        p.market_with(
            "lu_sim_checks_total",
            "comparaciones del libro publicado con la verdad",
            MetricType::Counter,
            m,
            "result",
            "ok",
            c.checks_ok as i128,
        );
        p.market_with(
            "lu_sim_checks_total",
            "comparaciones del libro publicado con la verdad",
            MetricType::Counter,
            m,
            "result",
            "mismatch",
            c.checks_mismatch as i128,
        );
        assert(p.done@ =~= was + sim_samples(m@, c));
        i += 1;
    }
    assert(s.take(i as int) =~= s);
    p.w.finish()
}

} // verus!

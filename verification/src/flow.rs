//! Publishable summary of the flows by level aligned with trades.

use crate::align::{plus, Aligner, AlignState, AlignerStats, BatchInfo, FlowSink, LevelFlow};
use crate::book::{BookState, L2Book};
use crate::event::Side;
use crate::fixed::Qty;
use crate::footprint::{last_n, Metrics, MetricsState, WallRetired, WallStats};
use crate::num::{add_i64, add_u64, clamp_i64, clamp_u64};
use crate::sync::ResyncReason;
use std::collections::VecDeque;
use vstd::prelude::*;

verus! {

/// Recent notable flows that are kept for the view.
pub const RECENT: usize = 50;

/// Recent retired walls shown in the view.
pub const RECENT_WALLS: usize = 10;

/// Totals over clean batches (lower bounds: so is their sum).
#[derive(Debug, Clone, Copy, PartialEq, Eq, Structural)]
pub struct FlowTotals {
    /// Executed against bids (aggressive sells), without hidden retail orders.
    pub exec_bid: Qty,
    /// Executed against asks (aggressive buys), without hidden retail orders.
    pub exec_ask: Qty,
    /// Sum of `no_visible_min` in bids.
    pub no_visible_min_bid: Qty,
    /// Sum of `no_visible_min` in asks.
    pub no_visible_min_ask: Qty,
    /// Sum of `cancelado_min` in bids.
    pub cancelado_min_bid: Qty,
    /// Sum of `cancelado_min` in asks.
    pub cancelado_min_ask: Qty,
    /// Executed against hidden retail orders.
    pub exec_rpi: Qty,
    /// Clean flows.
    pub flows_clean: u64,
}

impl FlowTotals {
    /// Nothing yet.
    pub open spec fn zero() -> FlowTotals {
        FlowTotals {
            exec_bid: Qty(0),
            exec_ask: Qty(0),
            no_visible_min_bid: Qty(0),
            no_visible_min_ask: Qty(0),
            cancelado_min_bid: Qty(0),
            cancelado_min_ask: Qty(0),
            exec_rpi: Qty(0),
            flows_clean: 0,
        }
    }

    /// The totals after a clean flow.
    pub open spec fn with(self, f: LevelFlow) -> FlowTotals {
        let t = FlowTotals {
            flows_clean: clamp_u64(self.flows_clean + 1) as u64,
            exec_rpi: plus(self.exec_rpi, f.exec_rpi),
            ..self
        };
        match f.side {
            Side::Bid => FlowTotals {
                exec_bid: plus(self.exec_bid, f.executed),
                no_visible_min_bid: plus(self.no_visible_min_bid, f.no_visible_min),
                cancelado_min_bid: plus(self.cancelado_min_bid, f.cancelado_min),
                ..t
            },
            Side::Ask => FlowTotals {
                exec_ask: plus(self.exec_ask, f.executed),
                no_visible_min_ask: plus(self.no_visible_min_ask, f.no_visible_min),
                cancelado_min_ask: plus(self.cancelado_min_ask, f.cancelado_min),
                ..t
            },
        }
    }
}

impl Default for FlowTotals {
    fn default() -> (r: Self)
        ensures
            r == FlowTotals::zero(),
    {
        FlowTotals {
            exec_bid: Qty(0),
            exec_ask: Qty(0),
            no_visible_min_bid: Qty(0),
            no_visible_min_ask: Qty(0),
            cancelado_min_bid: Qty(0),
            cancelado_min_ask: Qty(0),
            exec_rpi: Qty(0),
            flows_clean: 0,
        }
    }
}

/// What a [`FlowAgg`] holds.
#[verifier::ext_equal]
pub struct FlowAggState {
    /// Totals.
    pub totals: FlowTotals,
    /// Recent notable flows.
    pub recent: Seq<LevelFlow>,
    /// Last closed batch.
    pub last_batch: Option<BatchInfo>,
}

impl FlowAggState {
    /// Nothing yet.
    pub open spec fn zero() -> FlowAggState {
        FlowAggState { totals: FlowTotals::zero(), recent: Seq::empty(), last_batch: None }
    }
}

/// A flow with some positive bound.
pub open spec fn notable(f: LevelFlow) -> bool {
    f.no_visible_min.0 > 0 || f.cancelado_min.0 > 0
}

/// The consumer after a flow: only clean ones count, and the notable ones are kept.
pub open spec fn agg_next(s: FlowAggState, f: LevelFlow) -> FlowAggState {
    if !f.clean {
        s
    } else {
        FlowAggState {
            totals: s.totals.with(f),
            recent: if notable(f) {
                last_n(s.recent.push(f), RECENT as nat)
            } else {
                s.recent
            },
            ..s
        }
    }
}

/// Consumer of flows for the view of the node.
pub struct FlowAgg {
    totals: FlowTotals,
    recent: VecDeque<LevelFlow>,
    last_batch: Option<BatchInfo>,
}

impl FlowAgg {
    #[verifier::type_invariant]
    spec fn wf(self) -> bool {
        self.recent@.len() <= RECENT
    }

    /// What the consumer holds.
    pub closed spec fn content(&self) -> FlowAggState {
        FlowAggState {
            totals: self.totals,
            recent: self.recent@,
            last_batch: self.last_batch,
        }
    }

    /// The totals.
    pub fn totals(&self) -> (r: FlowTotals)
        ensures
            r == self.content().totals,
    {
        self.totals
    }

    /// The last closed batch.
    pub fn last_batch(&self) -> (r: Option<BatchInfo>)
        ensures
            r == self.content().last_batch,
    {
        self.last_batch
    }

    /// Recent notable flows (the newest last).
    pub fn recent(&self) -> (r: Vec<LevelFlow>)
        ensures
            r@ == self.content().recent,
            r@.len() <= RECENT,
    {
        proof {
            use_type_invariant(self);
        }
        let mut r: Vec<LevelFlow> = Vec::new();
        let mut i: usize = 0;
        while i < self.recent.len()
            invariant
                i <= self.recent@.len(),
                r@ == self.recent@.take(i as int),
            decreases self.recent@.len() - i,
        {
            r.push(self.recent[i]);
            i += 1;
        }
        assert(r@ =~= self.recent@);
        r
    }
}

impl Default for FlowAgg {
    fn default() -> (r: Self)
        ensures
            r.content() == FlowAggState::zero(),
    {
        let r = FlowAgg {
            totals: FlowTotals::default(),
            recent: VecDeque::new(),
            last_batch: None,
        };
        assert(r.content() =~= FlowAggState::zero());
        r
    }
}

impl FlowSink for FlowAgg {
    type State = FlowAggState;

    open spec fn state(&self) -> FlowAggState {
        self.content()
    }

    open spec fn flow_next(s: FlowAggState, f: LevelFlow) -> FlowAggState {
        agg_next(s, f)
    }

    open spec fn batch_next(s: FlowAggState, b: BatchInfo) -> FlowAggState {
        FlowAggState { last_batch: Some(b), ..s }
    }

    open spec fn rebuild_next(s: FlowAggState, epoch: u64, book: BookState) -> FlowAggState {
        s
    }

    open spec fn invalidate_next(
        s: FlowAggState,
        epoch: u64,
        reason: ResyncReason,
    ) -> FlowAggState {
        s
    }

    fn on_level_flow(&mut self, f: &LevelFlow) {
        if !f.clean {
            return;
        }
        proof {
            use_type_invariant(&*self);
        }
        let ghost s0 = self.content();
        let mut t = self.totals;
        t.flows_clean = add_u64(t.flows_clean, 1);
        t.exec_rpi = Qty(add_i64(t.exec_rpi.0, f.exec_rpi.0));
        match f.side {
            Side::Bid => {
                t.exec_bid = Qty(add_i64(t.exec_bid.0, f.executed.0));
                t.no_visible_min_bid = Qty(add_i64(t.no_visible_min_bid.0, f.no_visible_min.0));
                t.cancelado_min_bid = Qty(add_i64(t.cancelado_min_bid.0, f.cancelado_min.0));
            },
            Side::Ask => {
                t.exec_ask = Qty(add_i64(t.exec_ask.0, f.executed.0));
                t.no_visible_min_ask = Qty(add_i64(t.no_visible_min_ask.0, f.no_visible_min.0));
                t.cancelado_min_ask = Qty(add_i64(t.cancelado_min_ask.0, f.cancelado_min.0));
            },
        }
        self.totals = t;
        if f.no_visible_min.is_positive() || f.cancelado_min.is_positive() {
            let mut recent: VecDeque<LevelFlow> = VecDeque::new();
            core::mem::swap(&mut recent, &mut self.recent);
            if recent.len() == RECENT {
                let _ = recent.pop_front();
            }
            recent.push_back(*f);
            assert(recent@ =~= last_n(s0.recent.push(*f), RECENT as nat));
            self.recent = recent;
        }
        assert(self.content() =~= agg_next(s0, *f));
    }

    fn on_batch(&mut self, b: &BatchInfo) {
        proof {
            use_type_invariant(&*self);
        }
        self.last_batch = Some(*b);
    }

    fn on_rebuild(&mut self, epoch: u64, book: &L2Book) {
    }

    fn on_invalidate(&mut self, epoch: u64, reason: ResyncReason) {
    }
}

/// View of the flows published with the book.
pub struct FlowView {
    /// Counters of the aligner.
    pub stats: AlignerStats,
    /// Conservation of trades (must be 0).
    pub unaccounted: i64,
    /// Open batches.
    pub open_batches: usize,
    /// Trades held.
    pub buffered_trades: usize,
    /// End of the last closed batch (exchange ms).
    pub finalized_until_ms: u64,
    /// Totals.
    pub totals: FlowTotals,
    /// Last closed batch.
    pub last_batch: Option<BatchInfo>,
    /// Recent notable flows (the newest last).
    pub recent: Vec<LevelFlow>,
    /// Counters of the detector of retired walls.
    pub walls: WallStats,
    /// Last retired walls (the newest first).
    pub recent_walls: Vec<WallRetired>,
}

/// What a [`FlowView`] shows.
#[verifier::ext_equal]
pub struct FlowShow {
    /// Counters of the aligner.
    pub stats: AlignerStats,
    /// Conservation of trades.
    pub unaccounted: i64,
    /// Open batches.
    pub open_batches: int,
    /// Trades held.
    pub buffered_trades: int,
    /// End of the last closed batch.
    pub finalized_until_ms: u64,
    /// Totals.
    pub totals: FlowTotals,
    /// Last closed batch.
    pub last_batch: Option<BatchInfo>,
    /// Recent notable flows.
    pub recent: Seq<LevelFlow>,
    /// Counters of walls.
    pub walls: WallStats,
    /// Last retired walls.
    pub recent_walls: Seq<WallRetired>,
}

impl View for FlowView {
    type V = FlowShow;

    open spec fn view(&self) -> FlowShow {
        FlowShow {
            stats: self.stats,
            unaccounted: self.unaccounted,
            open_batches: self.open_batches as int,
            buffered_trades: self.buffered_trades as int,
            finalized_until_ms: self.finalized_until_ms,
            totals: self.totals,
            last_batch: self.last_batch,
            recent: self.recent@,
            walls: self.walls,
            recent_walls: self.recent_walls@,
        }
    }
}

/// The observer of the node: the aligner, with its summary and the metrics.
pub type Obs = Aligner<(FlowAgg, Metrics)>;

/// What the observer of the node holds.
pub type ObsState = AlignState<(FlowAggState, MetricsState)>;

/// What the observer shows.
pub open spec fn flow_show(s: ObsState) -> FlowShow {
    FlowShow {
        stats: s.stats,
        unaccounted: clamp_i64(s.stats.trades_rx - s.stats.settled() - s.uncounted) as i64,
        open_batches: s.batches.len() as int,
        buffered_trades: s.trades.len() as int,
        finalized_until_ms: s.finalized_until,
        totals: s.sink.0.totals,
        last_batch: s.sink.0.last_batch,
        recent: s.sink.0.recent,
        walls: s.sink.1.wall_stats,
        recent_walls: last_n(s.sink.1.walls, RECENT_WALLS as nat).reverse(),
    }
}

/// Nothing to show yet.
pub open spec fn flow_blank() -> FlowShow {
    FlowShow {
        stats: AlignerStats::zero(),
        unaccounted: 0,
        open_batches: 0,
        buffered_trades: 0,
        finalized_until_ms: 0,
        totals: FlowTotals::zero(),
        last_batch: None,
        recent: Seq::empty(),
        walls: WallStats::zero(),
        recent_walls: Seq::empty(),
    }
}

impl Default for FlowView {
    fn default() -> (r: Self)
        ensures
            r@ == flow_blank(),
    {
        let r = FlowView {
            stats: AlignerStats::default(),
            unaccounted: 0,
            open_batches: 0,
            buffered_trades: 0,
            finalized_until_ms: 0,
            totals: FlowTotals::default(),
            last_batch: None,
            recent: Vec::new(),
            walls: WallStats::default(),
            recent_walls: Vec::new(),
        };
        assert(r@ =~= flow_blank());
        r
    }
}

/// The view of the flows of an observer.
pub fn flow_view(al: &Obs) -> (r: FlowView)
    ensures
        r@ == flow_show(al.content()),
{
    let sink = al.sink();
    let walls = sink.1.walls();
    let ghost w = walls@;
    let mut recent_walls: Vec<WallRetired> = Vec::new();
    let mut i: usize = walls.len();
    let stop: usize = if walls.len() > RECENT_WALLS {
        walls.len() - RECENT_WALLS
    } else {
        0
    };
    while i > stop
        invariant
            stop <= i <= walls@.len(),
            w == walls@,
            recent_walls@ == w.skip(i as int).reverse(),
        decreases i,
    {
        let ghost was = recent_walls@;
        i -= 1;
        recent_walls.push(walls[i]);
        assert(recent_walls@ =~= w.skip(i as int).reverse());
    }
    let r = FlowView {
        stats: *al.stats(),
        unaccounted: al.unaccounted(),
        open_batches: al.open_batches(),
        buffered_trades: al.buffered_trades(),
        finalized_until_ms: al.finalized_until(),
        totals: sink.0.totals(),
        last_batch: sink.0.last_batch(),
        recent: sink.0.recent(),
        walls: *sink.1.wall_stats(),
        recent_walls,
    };
    assert(r@ =~= flow_show(al.content()));
    r
}

} // verus!

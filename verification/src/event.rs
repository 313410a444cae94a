//! Normalised events. Every venue connector produces exactly these types; the
//! engine never sees JSON nor the particularities of an exchange.

use crate::fixed::{Px, Qty};
use crate::num::clamp_u64;
use vstd::prelude::*;

verus! {

/// Side of the book.
#[derive(Debug, Clone, Copy, PartialEq, Eq, Structural, Hash, PartialOrd, Ord)]
pub enum Side {
    /// Buy.
    Bid,
    /// Sell.
    Ask,
}

/// Side of the aggressor of a trade.
#[derive(Debug, Clone, Copy, PartialEq, Eq, Structural, Hash)]
pub enum Aggressor {
    /// Aggressive buy: consumes asks.
    Buy,
    /// Aggressive sell: consumes bids.
    Sell,
}

/// A price level with its absolute quantity (0 removes the level).
#[derive(Debug, Clone, Copy, PartialEq, Eq, Structural, Hash)]
pub struct Level {
    /// Price.
    pub px: Px,
    /// Absolute quantity at the level.
    pub qty: Qty,
}

/// Reception stamp: which line delivered the message, and when.
#[derive(Debug, Clone, Copy, PartialEq, Eq, Structural)]
pub struct RxStamp {
    /// Redundant line of origin (0 is A, 1 is B, ...).
    pub line: u8,
    /// Wall clock, ns.
    pub wall_ns: u64,
    /// Monotonic clock, ns since the start of the process.
    pub mono_ns: u64,
}

impl Default for RxStamp {
    /// Line A at time zero.
    fn default() -> (r: Self)
        ensures
            r == (RxStamp { line: 0, wall_ns: 0, mono_ns: 0 }),
    {
        RxStamp { line: 0, wall_ns: 0, mono_ns: 0 }
    }
}

/// Incremental depth diff (absolute quantities per level).
#[derive(Debug, Clone, PartialEq, Eq)]
pub struct DepthDiff {
    /// First update id of the event.
    pub first_id: u64,
    /// Last update id of the event.
    pub last_id: u64,
    /// Last update id of the previous event, if the venue gives it.
    pub prev_last_id: Option<u64>,
    /// Exchange time of the event, ms.
    pub exch_ts_ms: u64,
    /// Time of the matching engine, ms, if there is one.
    pub match_ts_ms: Option<u64>,
    /// Modified bids.
    pub bids: Vec<Level>,
    /// Modified asks.
    pub asks: Vec<Level>,
    /// Reception.
    pub rx: RxStamp,
}

/// What a [`DepthDiff`] holds.
#[verifier::ext_equal]
pub struct DiffView {
    /// First update id.
    pub first_id: u64,
    /// Last update id.
    pub last_id: u64,
    /// Last update id of the previous event.
    pub prev_last_id: Option<u64>,
    /// Exchange time, ms.
    pub exch_ts_ms: u64,
    /// Matching engine time, ms.
    pub match_ts_ms: Option<u64>,
    /// Modified bids.
    pub bids: Seq<Level>,
    /// Modified asks.
    pub asks: Seq<Level>,
    /// Reception.
    pub rx: RxStamp,
}

impl View for DepthDiff {
    type V = DiffView;

    open spec fn view(&self) -> DiffView {
        DiffView {
            first_id: self.first_id,
            last_id: self.last_id,
            prev_last_id: self.prev_last_id,
            exch_ts_ms: self.exch_ts_ms,
            match_ts_ms: self.match_ts_ms,
            bids: self.bids@,
            asks: self.asks@,
            rx: self.rx,
        }
    }
}

/// Snapshot of the book.
#[derive(Debug, Clone, PartialEq, Eq)]
pub struct DepthSnapshot {
    /// Last update id that the snapshot includes.
    pub last_update_id: u64,
    /// Requested limit of levels (it defines the coverage: a side that brings
    /// `limit` levels is truncated).
    pub limit: usize,
    /// Bids.
    pub bids: Vec<Level>,
    /// Asks.
    pub asks: Vec<Level>,
    /// Exchange time, if it comes.
    pub exch_ts_ms: Option<u64>,
    /// The venue keeps a rolling window of levels: the coverage is, at each
    /// instant, what is present.
    pub rolling: bool,
    /// Reception.
    pub rx: RxStamp,
}

/// What a [`DepthSnapshot`] holds.
#[verifier::ext_equal]
pub struct SnapView {
    /// Last update id.
    pub last_update_id: u64,
    /// Requested limit of levels.
    pub limit: nat,
    /// Bids.
    pub bids: Seq<Level>,
    /// Asks.
    pub asks: Seq<Level>,
    /// Exchange time.
    pub exch_ts_ms: Option<u64>,
    /// The coverage rolls.
    pub rolling: bool,
    /// Reception.
    pub rx: RxStamp,
}

impl View for DepthSnapshot {
    type V = SnapView;

    open spec fn view(&self) -> SnapView {
        SnapView {
            last_update_id: self.last_update_id,
            limit: self.limit as nat,
            bids: self.bids@,
            asks: self.asks@,
            exch_ts_ms: self.exch_ts_ms,
            rolling: self.rolling,
            rx: self.rx,
        }
    }
}

/// Aggregated trade (one taker against one or more makers at one price).
#[derive(Debug, Clone, Copy, PartialEq, Eq, Structural)]
pub struct AggTrade {
    /// Id of the aggregated trade.
    pub agg_id: u64,
    /// First trade id.
    pub first_trade_id: u64,
    /// Last trade id.
    pub last_trade_id: u64,
    /// Price.
    pub px: Px,
    /// Total quantity.
    pub qty: Qty,
    /// Quantity of normal trades only, without hidden retail orders.
    pub qty_normal: Option<Qty>,
    /// Aggressor side.
    pub aggressor: Aggressor,
    /// Time of the trade, ms.
    pub trade_ts_ms: u64,
    /// Time of the event, ms.
    pub exch_ts_ms: u64,
    /// Reception.
    pub rx: RxStamp,
}

impl AggTrade {
    /// How many fills the trade holds: `last - first + 1`, at least one.
    pub open spec fn fills(self) -> int {
        clamp_u64(clamp_u64(self.last_trade_id - self.first_trade_id) + 1)
    }

    /// Number of real fills contained.
    pub fn n_fills(&self) -> (r: u64)
        ensures
            r == self.fills(),
    {
        self.last_trade_id.saturating_sub(self.first_trade_id).saturating_add(1)
    }

    /// Quantity executed against hidden retail orders, if the venue reports it.
    pub fn qty_rpi(&self) -> (r: Option<Qty>)
        ensures
            r == (match self.qty_normal {
                Some(n) => Some(Qty(crate::num::clamp_i64(self.qty.0 - n.0) as i64)),
                None => None,
            }),
    {
        match self.qty_normal {
            Some(n) => Some(Qty(crate::num::sub_i64(self.qty.0, n.0))),
            None => None,
        }
    }
}

/// Normalised market event that any connector produces.
#[derive(Debug, Clone, PartialEq, Eq)]
pub enum MarketEvent {
    /// Depth diff.
    Depth(DepthDiff),
    /// Aggregated trade.
    Trade(AggTrade),
    /// Snapshot delivered in the stream itself.
    Snapshot(DepthSnapshot),
    /// A valid message that nobody consumes here.
    Ignored,
}

/// What a [`MarketEvent`] holds.
pub enum EventView {
    /// Depth diff.
    Depth(DiffView),
    /// Aggregated trade.
    Trade(AggTrade),
    /// Snapshot.
    Snapshot(SnapView),
    /// Nothing consumed.
    Ignored,
}

impl View for MarketEvent {
    type V = EventView;

    open spec fn view(&self) -> EventView {
        match self {
            MarketEvent::Depth(d) => EventView::Depth(d@),
            MarketEvent::Trade(t) => EventView::Trade(*t),
            MarketEvent::Snapshot(s) => EventView::Snapshot(s@),
            MarketEvent::Ignored => EventView::Ignored,
        }
    }
}

/// The depth among some events.
pub open spec fn depth_of(log: Seq<EventView>) -> Seq<EventView>
    decreases log.len(),
{
    if log.len() == 0 {
        Seq::empty()
    } else {
        let d = depth_of(log.drop_last());
        match log.last() {
            EventView::Depth(_) => d.push(log.last()),
            EventView::Snapshot(_) => d.push(log.last()),
            _ => d,
        }
    }
}

pub(crate) proof fn lemma_depth_joined(a: Seq<EventView>, b: Seq<EventView>)
    ensures
        depth_of(a + b) == depth_of(a) + depth_of(b),
    decreases b.len(),
{
    if b.len() == 0 {
        assert(a + b =~= a);
        assert(depth_of(a) + depth_of(b) =~= depth_of(a));
    } else {
        lemma_depth_joined(a, b.drop_last());
        assert((a + b).drop_last() =~= a + b.drop_last());
        assert((a + b).last() == b.last());
        assert(depth_of(a + b) =~= depth_of(a) + depth_of(b));
    }
}

} // verus!

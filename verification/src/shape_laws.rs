//! What is said of a value is what it holds.

use crate::args;
use crate::binance;
use crate::bybit;
use crate::coinbase;
use crate::cvd;
use crate::event;
use crate::flow;
use crate::footprint;
use crate::http;
use crate::kraken;
use crate::net;
use crate::okx;
use crate::plan;
use crate::session;
use crate::sim;
use crate::sync;
use crate::view;
use vstd::prelude::*;

verus! {

/// What a `args::Args` holds is what is said of it, field by field.
pub proof fn law_args_args_is_its_fields(x: args::Args)
    ensures
        x@.symbol == x.symbol@,
        x@.venues == x.venues@,
        x@.coinbase_product == x.coinbase_product@,
        x@.markets == x.markets@,
        x@.lines == x.lines,
        x@.listen == x.listen@,
        x@.io_threads == x.io_threads,
        x@.pin == x.pin,
        x@.log == x.log@,
        x@.ca_file == args::text_of(x.ca_file),
        x@.sim == x.sim,
{
}

/// What a `binance::EnvelopeWire` holds is what is said of it, field by field.
pub proof fn law_binance_envelope_wire_is_its_fields(x: binance::EnvelopeWire)
    ensures
        x.deep_view().stream == x.stream.deep_view(),
        x.deep_view().data == x.data.deep_view(),
{
}

/// What a `binance::DepthWire` holds is what is said of it, field by field.
pub proof fn law_binance_depth_wire_is_its_fields(x: binance::DepthWire)
    ensures
        x.deep_view().event_time == x.event_time.deep_view(),
        x.deep_view().match_time == x.match_time.deep_view(),
        x.deep_view().first == x.first.deep_view(),
        x.deep_view().last == x.last.deep_view(),
        x.deep_view().prev == x.prev.deep_view(),
        x.deep_view().bids == x.bids.deep_view(),
        x.deep_view().asks == x.asks.deep_view(),
{
}

/// What a `binance::AggWire` holds is what is said of it, field by field.
pub proof fn law_binance_agg_wire_is_its_fields(x: binance::AggWire)
    ensures
        x.deep_view().event_time == x.event_time.deep_view(),
        x.deep_view().agg_id == x.agg_id.deep_view(),
        x.deep_view().px == x.px.deep_view(),
        x.deep_view().qty == x.qty.deep_view(),
        x.deep_view().qty_normal == x.qty_normal.deep_view(),
        x.deep_view().first == x.first.deep_view(),
        x.deep_view().last == x.last.deep_view(),
        x.deep_view().trade_time == x.trade_time.deep_view(),
        x.deep_view().buyer_is_maker == x.buyer_is_maker.deep_view(),
{
}

/// What a `binance::SnapshotWire` holds is what is said of it, field by field.
pub proof fn law_binance_snapshot_wire_is_its_fields(x: binance::SnapshotWire)
    ensures
        x.deep_view().last_update_id == x.last_update_id.deep_view(),
        x.deep_view().event_time == x.event_time.deep_view(),
        x.deep_view().bids == x.bids.deep_view(),
        x.deep_view().asks == x.asks.deep_view(),
{
}

/// What a `binance::SymWire` holds is what is said of it, field by field.
pub proof fn law_binance_sym_wire_is_its_fields(x: binance::SymWire)
    ensures
        x.deep_view().symbol == x.symbol.deep_view(),
        x.deep_view().filters == x.filters.deep_view(),
{
}

/// What a `binance::InfoWire` holds is what is said of it, field by field.
pub proof fn law_binance_info_wire_is_its_fields(x: binance::InfoWire)
    ensures
        x.deep_view().symbols == x.symbols.deep_view(),
{
}

/// What a `binance::FilterWire` holds is what is said of it, field by field.
pub proof fn law_binance_filter_wire_is_its_fields(x: binance::FilterWire)
    ensures
        x.deep_view().kind == x.kind.deep_view(),
        x.deep_view().tick == x.tick.deep_view(),
        x.deep_view().step == x.step.deep_view(),
{
}

/// What a `bybit::EnvelopeWire` holds is what is said of it, field by field.
pub proof fn law_bybit_envelope_wire_is_its_fields(x: bybit::EnvelopeWire)
    ensures
        x.deep_view().topic == x.topic.deep_view(),
        x.deep_view().kind == x.kind.deep_view(),
        x.deep_view().ts == x.ts.deep_view(),
        x.deep_view().cts == x.cts.deep_view(),
        x.deep_view().data == x.data.deep_view(),
        x.deep_view().op == x.op.deep_view(),
        x.deep_view().success == x.success.deep_view(),
        x.deep_view().ret_msg == x.ret_msg.deep_view(),
{
}

/// What a `bybit::BookWire` holds is what is said of it, field by field.
pub proof fn law_bybit_book_wire_is_its_fields(x: bybit::BookWire)
    ensures
        x.deep_view().b == x.b.deep_view(),
        x.deep_view().a == x.a.deep_view(),
        x.deep_view().u == x.u.deep_view(),
{
}

/// What a `bybit::TradeWire` holds is what is said of it, field by field.
pub proof fn law_bybit_trade_wire_is_its_fields(x: bybit::TradeWire)
    ensures
        x.deep_view().t == x.t.deep_view(),
        x.deep_view().side == x.side.deep_view(),
        x.deep_view().v == x.v.deep_view(),
        x.deep_view().p == x.p.deep_view(),
        x.deep_view().i == x.i.deep_view(),
        x.deep_view().rpi == x.rpi.deep_view(),
{
}

/// What a `coinbase::UpdateWire` holds is what is said of it, field by field.
pub proof fn law_coinbase_update_wire_is_its_fields(x: coinbase::UpdateWire)
    ensures
        x.deep_view().side == x.side.deep_view(),
        x.deep_view().event_time == x.event_time.deep_view(),
        x.deep_view().price_level == x.price_level.deep_view(),
        x.deep_view().new_quantity == x.new_quantity.deep_view(),
{
}

/// What a `coinbase::TradeWire` holds is what is said of it, field by field.
pub proof fn law_coinbase_trade_wire_is_its_fields(x: coinbase::TradeWire)
    ensures
        x.deep_view().trade_id == x.trade_id.deep_view(),
        x.deep_view().price == x.price.deep_view(),
        x.deep_view().size == x.size.deep_view(),
        x.deep_view().time == x.time.deep_view(),
        x.deep_view().side == x.side.deep_view(),
{
}

/// What a `coinbase::ItemWire` holds is what is said of it, field by field.
pub proof fn law_coinbase_item_wire_is_its_fields(x: coinbase::ItemWire)
    ensures
        x.deep_view().kind == x.kind.deep_view(),
        x.deep_view().updates == x.updates.deep_view(),
        x.deep_view().trades == x.trades.deep_view(),
{
}

/// What a `coinbase::EnvelopeWire` holds is what is said of it, field by field.
pub proof fn law_coinbase_envelope_wire_is_its_fields(x: coinbase::EnvelopeWire)
    ensures
        x.deep_view().channel == x.channel.deep_view(),
        x.deep_view().sequence_num == x.sequence_num.deep_view(),
        x.deep_view().events == x.events.deep_view(),
        x.deep_view().kind == x.kind.deep_view(),
        x.deep_view().message == x.message.deep_view(),
{
}

/// What a `cvd::BookCvd` holds is what is said of it, field by field.
pub proof fn law_cvd_book_cvd_is_its_fields(x: cvd::BookCvd)
    ensures
        x@.ref_px == x.ref_px,
        x@.ref_bucket == x.ref_bucket,
        x@.levels == x.levels@,
        x@.total == x.total,
        x@.complete == x.complete,
        x@.spot_ts_ms == x.spot_ts_ms,
        x@.perp_ts_ms == x.perp_ts_ms,
        x@.skew_ms == x.skew_ms,
        x@.markets == (x.markets as int),
{
}

/// What a `event::DepthDiff` holds is what is said of it, field by field.
pub proof fn law_event_depth_diff_is_its_fields(x: event::DepthDiff)
    ensures
        x@.first_id == x.first_id,
        x@.last_id == x.last_id,
        x@.prev_last_id == x.prev_last_id,
        x@.exch_ts_ms == x.exch_ts_ms,
        x@.match_ts_ms == x.match_ts_ms,
        x@.bids == x.bids@,
        x@.asks == x.asks@,
        x@.rx == x.rx,
{
}

/// What a `event::DepthSnapshot` holds is what is said of it, field by field.
pub proof fn law_event_depth_snapshot_is_its_fields(x: event::DepthSnapshot)
    ensures
        x@.last_update_id == x.last_update_id,
        x@.limit == (x.limit as nat),
        x@.bids == x.bids@,
        x@.asks == x.asks@,
        x@.exch_ts_ms == x.exch_ts_ms,
        x@.rolling == x.rolling,
        x@.rx == x.rx,
{
}

/// What a `flow::FlowView` holds is what is said of it, field by field.
pub proof fn law_flow_flow_view_is_its_fields(x: flow::FlowView)
    ensures
        x@.stats == x.stats,
        x@.unaccounted == x.unaccounted,
        x@.open_batches == (x.open_batches as int),
        x@.buffered_trades == (x.buffered_trades as int),
        x@.finalized_until_ms == x.finalized_until_ms,
        x@.totals == x.totals,
        x@.last_batch == x.last_batch,
        x@.recent == x.recent@,
        x@.walls == x.walls,
        x@.recent_walls == x.recent_walls@,
{
}

/// What a `footprint::CandleView` holds is what is said of it, field by field.
pub proof fn law_footprint_candle_view_is_its_fields(x: footprint::CandleView)
    ensures
        x@.tf_ms == x.tf_ms,
        x@.start_ms == x.start_ms,
        x@.end_ms == x.end_ms,
        x@.observed_ms == x.observed_ms,
        x@.clean == x.clean,
        x@.buy_exec == x.buy_exec,
        x@.sell_exec == x.sell_exec,
        x@.delta == x.delta,
        x@.ref_start_ms == x.ref_start_ms,
        x@.cells == x.cells@,
{
}

/// What a `footprint::MetricsView` holds is what is said of it, field by field.
pub proof fn law_footprint_metrics_view_is_its_fields(x: footprint::MetricsView)
    ensures
        x@.now_ms == x.now_ms,
        x@.current == footprint::shows(x.current@),
        x@.closed.len() == x.closed@.len(),
        forall|i: int|
            0 <= i < x.closed@.len() ==> #[trigger] x@.closed[i] == footprint::shows(x.closed@[i]@),
        x@.walls == x.walls@,
        x@.wall_stats == x.wall_stats,
        x@.bid_floor_bucket == x.bid_floor_bucket,
        x@.ask_ceiling_bucket == x.ask_ceiling_bucket,
{
}

/// What a `http::Request` holds is what is said of it, field by field.
pub proof fn law_http_request_is_its_fields(x: http::Request)
    ensures
        x@.method == x.method@,
        x@.path == x.path@,
        x@.query == x.query@,
        x@.ws_key == (match x.ws_key {
            Some(k) => Some(k@),
            None => None,
        }),
{
}

/// What a `kraken::QuoteWire` holds is what is said of it, field by field.
pub proof fn law_kraken_quote_wire_is_its_fields(x: kraken::QuoteWire)
    ensures
        x.deep_view().price == x.price.deep_view(),
        x.deep_view().qty == x.qty.deep_view(),
{
}

/// What a `kraken::BookWire` holds is what is said of it, field by field.
pub proof fn law_kraken_book_wire_is_its_fields(x: kraken::BookWire)
    ensures
        x.deep_view().bids == x.bids.deep_view(),
        x.deep_view().asks == x.asks.deep_view(),
        x.deep_view().checksum == x.checksum.deep_view(),
        x.deep_view().timestamp == x.timestamp.deep_view(),
{
}

/// What a `kraken::TradeWire` holds is what is said of it, field by field.
pub proof fn law_kraken_trade_wire_is_its_fields(x: kraken::TradeWire)
    ensures
        x.deep_view().side == x.side.deep_view(),
        x.deep_view().price == x.price.deep_view(),
        x.deep_view().qty == x.qty.deep_view(),
        x.deep_view().trade_id == x.trade_id.deep_view(),
        x.deep_view().timestamp == x.timestamp.deep_view(),
{
}

/// What a `kraken::EnvelopeWire` holds is what is said of it, field by field.
pub proof fn law_kraken_envelope_wire_is_its_fields(x: kraken::EnvelopeWire)
    ensures
        x.deep_view().channel == x.channel.deep_view(),
        x.deep_view().kind == x.kind.deep_view(),
        x.deep_view().data == x.data.deep_view(),
        x.deep_view().method == x.method.deep_view(),
        x.deep_view().success == x.success.deep_view(),
        x.deep_view().error == x.error.deep_view(),
{
}

/// What a `kraken::PairWire` holds is what is said of it, field by field.
pub proof fn law_kraken_pair_wire_is_its_fields(x: kraken::PairWire)
    ensures
        x.deep_view().wsname == x.wsname.deep_view(),
        x.deep_view().pair_decimals == x.pair_decimals.deep_view(),
        x.deep_view().lot_decimals == x.lot_decimals.deep_view(),
{
}

/// What a `kraken::ReplyWire` holds is what is said of it, field by field.
pub proof fn law_kraken_reply_wire_is_its_fields(x: kraken::ReplyWire)
    ensures
        x.deep_view().error == x.error.deep_view(),
        x.deep_view().result == x.result.deep_view(),
{
}

/// What a `okx::ArgWire` holds is what is said of it, field by field.
pub proof fn law_okx_arg_wire_is_its_fields(x: okx::ArgWire)
    ensures
        x.deep_view().channel == x.channel.deep_view(),
{
}

/// What a `okx::EnvelopeWire` holds is what is said of it, field by field.
pub proof fn law_okx_envelope_wire_is_its_fields(x: okx::EnvelopeWire)
    ensures
        x.deep_view().event == x.event.deep_view(),
        x.deep_view().msg == x.msg.deep_view(),
        x.deep_view().arg == x.arg.deep_view(),
        x.deep_view().action == x.action.deep_view(),
        x.deep_view().data == x.data.deep_view(),
{
}

/// What a `okx::BookWire` holds is what is said of it, field by field.
pub proof fn law_okx_book_wire_is_its_fields(x: okx::BookWire)
    ensures
        x.deep_view().asks == x.asks.deep_view(),
        x.deep_view().bids == x.bids.deep_view(),
        x.deep_view().ts == x.ts.deep_view(),
        x.deep_view().seq_id == x.seq_id.deep_view(),
        x.deep_view().prev_seq_id == x.prev_seq_id.deep_view(),
{
}

/// What a `okx::TradeWire` holds is what is said of it, field by field.
pub proof fn law_okx_trade_wire_is_its_fields(x: okx::TradeWire)
    ensures
        x.deep_view().trade_id == x.trade_id.deep_view(),
        x.deep_view().px == x.px.deep_view(),
        x.deep_view().sz == x.sz.deep_view(),
        x.deep_view().side == x.side.deep_view(),
        x.deep_view().ts == x.ts.deep_view(),
        x.deep_view().count == x.count.deep_view(),
{
}

/// What a `okx::InstWire` holds is what is said of it, field by field.
pub proof fn law_okx_inst_wire_is_its_fields(x: okx::InstWire)
    ensures
        x.deep_view().tick_sz == x.tick_sz.deep_view(),
        x.deep_view().lot_sz == x.lot_sz.deep_view(),
        x.deep_view().ct_val == x.ct_val.deep_view(),
{
}

/// What a `okx::ReplyWire` holds is what is said of it, field by field.
pub proof fn law_okx_reply_wire_is_its_fields(x: okx::ReplyWire)
    ensures
        x.deep_view().code == x.code.deep_view(),
        x.deep_view().msg == x.msg.deep_view(),
        x.deep_view().data == x.data.deep_view(),
{
}

/// What a `plan::Planned` holds is what is said of it, field by field.
pub proof fn law_plan_planned_is_its_fields(x: plan::Planned)
    ensures
        x@.venue == x.market.venue,
        x@.kind == x.market.kind,
        x@.symbol == x.market.symbol@,
        x@.key == x.key@,
        x@.rule == x.rule,
{
}

/// What a `session::Reaction` holds is what is said of it, field by field.
pub proof fn law_session_reaction_is_its_fields(x: session::Reaction)
    ensures
        x@.events == net::events_of(x.events@),
        x@.fault == (match x.fault {
            Some(e) => Some(e@),
            None => None,
        }),
        x@.send == x.send.deep_view(),
        x@.close == x.close,
        x@.end == x.end,
        x@.if_unsent == x.if_unsent,
{
}

/// What a `sim::Top` holds is what is said of it, field by field.
pub proof fn law_sim_top_is_its_fields(x: sim::Top)
    ensures
        x@.bids == x.bids@,
        x@.asks == x.asks@,
{
}

/// What a `sync::SyncStats` holds is what is said of it, field by field.
pub proof fn law_sync_sync_stats_is_its_fields(x: sync::SyncStats)
    ensures
        x@.diffs_rx == x.diffs_rx,
        x@.applied == x.applied,
        x@.stale == x.stale,
        x@.ahead == x.ahead,
        x@.reordered_applied == x.reordered_applied,
        x@.snapshots_requested == x.snapshots_requested,
        x@.snapshots_rx == x.snapshots_rx,
        x@.snapshots_unbridgeable == x.snapshots_unbridgeable,
        x@.snapshots_ignored == x.snapshots_ignored,
        x@.resync_gap_timeout == x.resync_gap_timeout,
        x@.resync_pending_overflow == x.resync_pending_overflow,
        x@.resync_invalid_sequence == x.resync_invalid_sequence,
        x@.resync_crossed == x.resync_crossed,
        x@.resync_manual == x.resync_manual,
        x@.crossed_seen == x.crossed_seen,
        x@.buffer_dropped == x.buffer_dropped,
        x@.pre_snapshot == x.pre_snapshot,
        x@.invalid_dropped == x.invalid_dropped,
        x@.max_pending_seen == x.max_pending_seen,
        x@.applied_by_line == x.applied_by_line@,
        x@.stale_by_line == x.stale_by_line@,
{
}

/// What a `view::BookView` holds is what is said of it, field by field.
pub proof fn law_view_book_view_is_its_fields(x: view::BookView)
    ensures
        x@.market == x.market@,
        x@.phase == x.phase,
        x@.epoch == x.epoch,
        x@.last_update_id == x.last_update_id,
        x@.exch_ts_ms == x.exch_ts_ms,
        x@.book_age_ms == x.book_age_ms,
        x@.best_bid == x.best_bid,
        x@.best_ask == x.best_ask,
        x@.mid == x.mid,
        x@.spread_bps == (match x.spread_bps {
            Some(t) => Some(t@),
            None => None,
        }),
        x@.top_bids == x.top_bids@,
        x@.top_asks == x.top_asks@,
        x@.levels == x.levels,
        x@.coverage == x.coverage,
        x@.tick == x.tick,
        x@.step == x.step,
        x@.off_tick_levels == x.off_tick_levels,
        x@.pending == x.pending,
        x@.buffer == x.buffer,
        x@.unaccounted == x.unaccounted,
        x@.sync == x.sync@,
        x@.lines == x.lines@,
        x@.trades == x.trades,
        x@.flow == x.flow@,
        x@.ingest_dropped == x.ingest_dropped,
        x@.parse_errors == x.parse_errors,
        x@.rest_weight_1m == x.rest_weight_1m,
        x@.published_wall_ms == x.published_wall_ms,
{
}

/// An event is said to be what it is.
pub proof fn law_event_is_what_it_is(
    d: event::DepthDiff,
    t: event::AggTrade,
    s: event::DepthSnapshot,
)
    ensures
        event::MarketEvent::Depth(d)@ == event::EventView::Depth(d@),
        event::MarketEvent::Trade(t)@ == event::EventView::Trade(t),
        event::MarketEvent::Snapshot(s)@ == event::EventView::Snapshot(s@),
        event::MarketEvent::Ignored@ == event::EventView::Ignored,
{
}

} // verus!

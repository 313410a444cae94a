//! Unified L2 order books.

pub mod align;
pub mod arbitration;
pub mod args;
pub mod ask_laws;
pub mod batch_laws;
pub mod batch_log;
pub mod binance;
pub mod book;
pub mod book_laws;
pub mod bound_laws;
pub mod bybit;
pub mod candle_laws;
pub mod candle_view_laws;
pub mod chaos;
pub mod coinbase;
pub mod conservation;
pub mod crc;
pub mod cvd;
pub mod cvd_laws;
pub mod engine;
pub mod epochs;
pub mod event;
pub mod execution_laws;
pub mod fixed;
pub mod flow;
pub mod flow_chain;
pub mod flow_laws;
pub mod footprint;
pub mod http;
pub mod instrument;
pub mod json;
pub mod kraken;
pub mod kraken_laws;
pub mod line_laws;
pub mod link_laws;
pub mod mirror;
pub mod net;
pub mod num;
pub mod number_laws;
pub mod observer;
pub mod okx;
pub mod ordmap;
pub mod page_laws;
pub mod plan;
pub mod quote;
pub mod reading_laws;
pub mod record;
pub mod recovery;
pub mod retired_laws;
pub mod rule;
pub mod serve_laws;
pub mod session;
pub mod setup_laws;
pub mod shape_laws;
pub mod sim;
pub mod sim_laws;
pub mod snapshot;
pub mod sums;
pub mod sync;
pub mod sync_laws;
pub mod telemetry;
pub mod text;
pub mod time;
pub mod truth_laws;
pub mod twa_laws;
pub mod venue_laws;
pub mod view;
pub mod view_laws;
pub mod wall_laws;
pub mod wire_laws;
pub mod words;
pub mod ws;

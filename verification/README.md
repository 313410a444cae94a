# libro_unificado

Exact L2 books of several exchanges, spot and perpetual, kept in memory and in real time
from redundant WebSocket lines; the flows of trades aligned with them; and the metrics on
top: footprint candles with time-weighted averages, retired walls, and the delta of the
book.

`src/` is the library, verified with Verus. It does no I/O and reads no clock: time and
messages come in as arguments. `app/` is the node around it: lines, REST, threads, the HTTP
and WebSocket API. `tests/` runs the library on concrete values.

## Layout of the library

| Modules | Content |
|---|---|
| `fixed`, `num`, `text`, `words`, `time` | fixed point with eight decimals, saturating arithmetic, decimal text, words, dates |
| `event`, `instrument` | normalised events and markets |
| `ordmap` | an ordered map as a sorted vector |
| `book`, `rule`, `observer`, `sync` | the book, how the diffs of a venue chain, who follows the book, and the synchronisation machine |
| `align`, `flow` | trades aligned with batches of depth: bounds per level and batch |
| `footprint`, `cvd` | candles, walls, liquidity readings, delta of the book |
| `json`, `record`, `quote`, `crc` | JSON one level at a time, its records, levels, checksums |
| `binance`, `okx`, `bybit`, `coinbase`, `kraken` | the protocols of the venues |
| `net`, `session`, `snapshot` | reconnection policy, what happens on a connection, pacing of snapshots |
| `engine`, `view`, `telemetry`, `http`, `ws` | the engine of a market and what it publishes |
| `args`, `plan` | the options of the node and the markets to run |
| `sim`, `chaos` | a synthetic exchange with a known truth, and chaos on its lines |

## What is proved

Every function has a contract that fixes its result. The properties that span functions
are public proof functions named `law_…`:

* `conservation`, `arbitration`: every diff is accounted for exactly once; a live book is
  never wrong, whatever the lines lose, repeat or reorder.
* `recovery`: where each event comes by some line before the window of a gap is over, there
  is no resync, and once a snapshot that bridges and every event have come the book is live
  and exact; after an event that no line brings there is one resync, and the book is exact
  again.
* `epochs`: each rebuild has the next epoch, and the observer is told of it once.
* `flow_laws`, `flow_chain`, `batch_log`, `mirror`: trades are conserved, the published figures
  are lower bounds of what happened, every level has its flow, batches chain and are told in
  order up to what is final, epochs never mix, and the aligner follows the book.
* `twa_laws`, `execution_laws`, `candle_laws`, `wall_laws`: averages and executions of every
  candle are exact, candles tile the time, every reported wall met its conditions, and each
  window is evaluated once.
* `line_laws`, `kraken_laws`: over everything that reaches a line its ids never go back, it
  gives no depth between a loss and the next snapshot and, on Kraken, its events make the
  mirror that the checksums verified.
* `sim_laws`, `chaos`: the synthetic market is not crossed while its sides can be replenished,
  and its diffs tell its changes whole.
* The modules of the venues, of the lines and of the node hold the laws about themselves.

## What is trusted

The grammar of JSON (`serde_json`), the histogram of latencies (`hdrhistogram`), the answer
to a WebSocket key (`tungstenite`), the levels of the log (`tracing`), and a few functions of
the standard library on text.
Each stands behind one small function whose comment says what is claimed of it.

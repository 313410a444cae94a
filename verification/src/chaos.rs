//! Chaos on the lines of the synthetic market, and the check of what the node publishes
//! against the truth.

use crate::event::AggTrade;
use crate::fixed::{Px, Qty};
use crate::instrument::MarketKind;
use crate::num::{add_u64, clamp_u64};
use crate::sim::{chanced, drawn, top_at, Rng, Truth, TruthState};
use vstd::prelude::*;

verus! {

/// Parameters of the simulator and of the chaos. A chance `Some(t)` stands for the
/// probability `t / 2^53`; `None` never happens.
#[derive(Debug, Clone, Copy)]
pub struct SimConfig {
    /// Seed of the generator.
    pub seed: u64,
    /// Chance of losing each event on each line.
    pub drop: Option<u64>,
    /// Longest extra latency per line, ms.
    pub jitter_ms: u64,
    /// Mean seconds between outages of each line (0: none).
    pub outage_every_s: u64,
    /// Chance that a requested snapshot does not come.
    pub snapshot_fail: Option<u64>,
}

impl Default for SimConfig {
    /// No losses, little latency.
    fn default() -> (r: Self)
        ensures
            r == (SimConfig {
                seed: 0x5eed,
                drop: None,
                jitter_ms: 20,
                outage_every_s: 0,
                snapshot_fail: None,
            }),
    {
        SimConfig {
            seed: 0x5eed,
            drop: None,
            jitter_ms: 20,
            outage_every_s: 0,
            snapshot_fail: None,
        }
    }
}

/// The seed of the market of a kind.
pub fn market_seed(seed: u64, kind: MarketKind) -> (r: u64)
    ensures
        r == (match kind {
            MarketKind::Spot => seed,
            MarketKind::Perp => seed ^ 0xfeed,
        }),
{
    match kind {
        MarketKind::Spot => seed,
        MarketKind::Perp => seed ^ 0xfeed,
    }
}

/// What a chaotic line holds.
#[verifier::ext_equal]
pub struct LineState {
    /// State of the generator.
    pub rng: u64,
    /// End of the outage in course, ms.
    pub down_until: Option<u64>,
    /// Next outage, ms.
    pub next_outage: Option<u64>,
    /// Instant of the last delivery, ms.
    pub deliver_at: u64,
}

/// What becomes of an event.
#[derive(Clone, Copy, PartialEq, Eq, Structural)]
pub enum Fate {
    /// It comes during an outage.
    Cut,
    /// It is lost on purpose.
    Dropped,
    /// It is delivered at this instant, ms.
    Deliver(u64),
}

/// What an event does to the line, and what becomes of it.
#[derive(Clone, Copy, PartialEq, Eq, Structural)]
pub struct LineStep {
    /// The line goes down.
    pub went_down: bool,
    /// The line comes back.
    pub came_up: bool,
    /// What becomes of the event.
    pub fate: Fate,
}

/// The next outage, drawn at `now`.
pub open spec fn outage_drawn(x: u64, every_s: u64, now: u64) -> (u64, Option<u64>) {
    if every_s > 0 {
        let (y, r) = drawn(x, clamp_u64(every_s + 1) as u64);
        (y, Some(clamp_u64(now + (every_s / 2 + r) * 1000) as u64))
    } else {
        (x, None)
    }
}

/// A line at its start.
pub open spec fn line_start(cfg: SimConfig, line: u8, now: u64) -> LineState {
    let (x, next_outage) = outage_drawn(
        cfg.seed ^ ((0x9e37_79b9 * (line + 1)) as u64),
        cfg.outage_every_s,
        now,
    );
    LineState { rng: x, down_until: None, next_outage, deliver_at: now }
}

/// The line after the chance of a new outage at `now`.
pub open spec fn after_outage(s: LineState, now: u64) -> (LineState, bool) {
    match s.next_outage {
        Some(t) => if now >= t {
            let (x, r) = drawn(s.rng, 25);
            (
                LineState {
                    rng: x,
                    down_until: Some(clamp_u64(now + (5 + r) * 1000) as u64),
                    next_outage: None,
                    ..s
                },
                true,
            )
        } else {
            (s, false)
        },
        None => (s, false),
    }
}

/// What an event that comes at `now` does.
pub open spec fn line_next(s: LineState, cfg: SimConfig, now: u64, is_trade: bool) -> (
    LineState,
    LineStep,
) {
    let (a, went_down) = after_outage(s, now);
    if a.down_until is Some && now < a.down_until->0 {
        (a, LineStep { went_down, came_up: false, fate: Fate::Cut })
    } else {
        let came_up = a.down_until is Some;
        let (x, next) = outage_drawn(a.rng, cfg.outage_every_s, now);
        let b = if came_up {
            LineState { rng: x, down_until: None, next_outage: next, ..a }
        } else {
            a
        };
        let (y, lost) = chanced(b.rng, cfg.drop);
        if lost {
            (
                LineState { rng: y, ..b },
                LineStep { went_down, came_up, fate: Fate::Dropped },
            )
        } else {
            let (z, extra) = if is_trade {
                (y, 0u64)
            } else {
                drawn(y, clamp_u64(cfg.jitter_ms + 1) as u64)
            };
            let due = clamp_u64(now + extra) as u64;
            let at = if b.deliver_at < due {
                due
            } else {
                b.deliver_at
            };
            (
                LineState { rng: z, deliver_at: at, ..b },
                LineStep { went_down, came_up, fate: Fate::Deliver(at) },
            )
        }
    }
}

/// A simulated line: latency, losses and outages before the delivery.
pub struct ChaosLine {
    rng: Rng,
    down_until: Option<u64>,
    next_outage: Option<u64>,
    deliver_at: u64,
}

fn draw_outage(rng: &mut Rng, every_s: u64, now: u64) -> (r: Option<u64>)
    ensures
        (final(rng).0, r) == outage_drawn(old(rng).0, every_s, now),
{
    if every_s > 0 {
        let r = rng.below(add_u64(every_s, 1));
        Some(crate::num::to_u64(now as i128 + (every_s as i128 / 2 + r as i128) * 1000))
    } else {
        None
    }
}

impl ChaosLine {
    /// What the line holds.
    pub closed spec fn content(&self) -> LineState {
        LineState {
            rng: self.rng.0,
            down_until: self.down_until,
            next_outage: self.next_outage,
            deliver_at: self.deliver_at,
        }
    }

    /// A line that starts at `now`, ms.
    pub fn new(cfg: &SimConfig, line: u8, now: u64) -> (r: Self)
        ensures
            r.content() == line_start(*cfg, line, now),
    {
        let k: u64 = 0x9e37_79b9 * (line as u64 + 1);
        let mut rng = Rng(cfg.seed ^ k);
        let next_outage = draw_outage(&mut rng, cfg.outage_every_s, now);
        ChaosLine { rng, down_until: None, next_outage, deliver_at: now }
    }

    /// What an event that comes at `now`, ms, does.
    pub fn on_event(&mut self, cfg: &SimConfig, now: u64, is_trade: bool) -> (r: LineStep)
        ensures
            (final(self).content(), r) == line_next(old(self).content(), *cfg, now, is_trade),
    {
        let mut went_down = false;
        if let Some(t) = self.next_outage {
            if now >= t {
                let secs: u64 = 5 + self.rng.below(25);
                self.down_until = Some(add_u64(now, secs * 1000));
                self.next_outage = None;
                went_down = true;
            }
        }
        let mut came_up = false;
        if let Some(u) = self.down_until {
            if now < u {
                return LineStep { went_down, came_up: false, fate: Fate::Cut };
            }
            self.down_until = None;
            self.next_outage = draw_outage(&mut self.rng, cfg.outage_every_s, now);
            came_up = true;
        }
        if self.rng.chance(cfg.drop) {
            return LineStep { went_down, came_up, fate: Fate::Dropped };
        }
        let extra: u64 = if is_trade {
            0
        } else {
            self.rng.below(add_u64(cfg.jitter_ms, 1))
        };
        let due = add_u64(now, extra);
        if self.deliver_at < due {
            self.deliver_at = due;
        }
        LineStep { went_down, came_up, fate: Fate::Deliver(self.deliver_at) }
    }
}

/// Latency never reorders a line: what comes later is not delivered earlier, and nothing
/// is delivered before it comes nor later than its jitter and what went before.
pub proof fn law_line_keeps_order(s: LineState, cfg: SimConfig, now: u64, is_trade: bool)
    requires
        now + cfg.jitter_ms <= u64::MAX,
        cfg.jitter_ms < u64::MAX,
    ensures
        ({
            let (n, step) = line_next(s, cfg, now, is_trade);
            &&& s.deliver_at <= n.deliver_at
            &&& step.fate matches Fate::Deliver(at) ==> {
                &&& at == n.deliver_at
                &&& now <= at
                &&& at <= now + cfg.jitter_ms || at == s.deliver_at
            }
        }),
{
    let (a, went_down) = after_outage(s, now);
    let (x, next) = outage_drawn(a.rng, cfg.outage_every_s, now);
    let b = if a.down_until is Some {
        LineState { rng: x, down_until: None, next_outage: next, ..a }
    } else {
        a
    };
    let (y, lost) = chanced(b.rng, cfg.drop);
    let (z, extra) = drawn(y, (cfg.jitter_ms + 1) as u64);
    assert(extra < cfg.jitter_ms + 1);
}

/// The answers to snapshot requests: how long they take, and whether they fail.
pub struct SnapshotChaos {
    rng: Rng,
}

impl SnapshotChaos {
    /// The state of the generator.
    pub closed spec fn content(&self) -> u64 {
        self.rng.0
    }

    /// The answers of a simulator.
    pub fn new(cfg: &SimConfig) -> (r: Self)
        ensures
            r.content() == cfg.seed ^ 0xabcd,
    {
        SnapshotChaos { rng: Rng(cfg.seed ^ 0xabcd) }
    }

    /// How long the next answer takes, ms.
    pub fn latency_ms(&mut self) -> (r: u64)
        ensures
            final(self).content() == drawn(old(self).content(), 250).0,
            r == 50 + drawn(old(self).content(), 250).1,
    {
        50 + self.rng.below(250)
    }

    /// Whether the next answer does not come.
    pub fn fails(&mut self, cfg: &SimConfig) -> (r: bool)
        ensures
            (final(self).content(), r) == chanced(old(self).content(), cfg.snapshot_fail),
    {
        self.rng.chance(cfg.snapshot_fail)
    }
}

/// The order in which a socket delivers: by time of the event, then by id.
pub open spec fn delivered_before(a: AggTrade, b: AggTrade) -> bool {
    a.exch_ts_ms < b.exch_ts_ms || (a.exch_ts_ms == b.exch_ts_ms && a.agg_id <= b.agg_id)
}

/// The trades stand in the order of delivery.
pub open spec fn in_order(v: Seq<AggTrade>) -> bool {
    forall|i: int, j: int|
        0 <= i < j < v.len() ==> delivered_before(#[trigger] v[i], #[trigger] v[j])
}

/// The trades in the order in which a socket delivers them.
pub fn sort_trades(v: Vec<AggTrade>) -> (r: Vec<AggTrade>)
    ensures
        in_order(r@),
        r@.to_multiset() == v@.to_multiset(),
{
    let mut out: Vec<AggTrade> = Vec::new();
    let mut i: usize = 0;
    assert(v@.take(0) =~= Seq::<AggTrade>::empty());
    assert(out@ =~= Seq::<AggTrade>::empty());
    while i < v.len()
        invariant
            i <= v.len(),
            in_order(out@),
            out.len() == i,
            out@.to_multiset() == v@.take(i as int).to_multiset(),
        decreases v.len() - i,
    {
        let t = v[i];
        let mut p: usize = out.len();
        while p > 0 && !(out[p - 1].exch_ts_ms < t.exch_ts_ms || (out[p - 1].exch_ts_ms
            == t.exch_ts_ms && out[p - 1].agg_id <= t.agg_id))
            invariant
                p <= out.len(),
                in_order(out@),
                forall|k: int|
                    p <= k < out.len() ==> !delivered_before(#[trigger] out@[k], t),
            decreases p,
        {
            p -= 1;
        }
        let ghost before = out@;
        out.insert(p, t);
        proof {
            assert(out@ =~= before.insert(p as int, t));
            broadcast use vstd::seq_lib::group_to_multiset_ensures;

            vstd::seq_lib::to_multiset_insert(before, p as int, t);
            vstd::seq_lib::to_multiset_insert(v@.take(i as int), i as int, t);
            assert(v@.take(i as int).insert(i as int, t) =~= v@.take(i + 1));
            assert forall|a: int, b: int| 0 <= a < b < out@.len() implies delivered_before(
                #[trigger] out@[a],
                #[trigger] out@[b],
            ) by {
                if a < p && b == p {
                    if a < p - 1 {
                        assert(delivered_before(before[a], before[p - 1]));
                    }
                }
            }
        }
        i += 1;
    }
    assert(v@.take(i as int) =~= v@);
    out
}

/// The outcome of a check against the truth.
#[derive(Clone, Copy, PartialEq, Eq, Structural)]
pub enum Check {
    /// There was nothing to compare.
    Skipped,
    /// The published top is the truth.
    Agrees,
    /// The published top differs from the truth.
    Differs,
}

/// The entries that both lists have agree.
pub open spec fn agree(a: Seq<(Px, Qty)>, b: Seq<(Px, Qty)>) -> bool {
    forall|i: int| 0 <= i < a.len() && i < b.len() ==> #[trigger] a[i] == b[i]
}

/// What a check gives, and the ids checked lately after it.
pub open spec fn check_next(
    recent: Seq<u64>,
    truth: TruthState,
    live: bool,
    id: u64,
    bids: Seq<(Px, Qty)>,
    asks: Seq<(Px, Qty)>,
) -> (Seq<u64>, Check) {
    if !live || recent.contains(id) || top_at(truth.history, id) is None {
        (recent, Check::Skipped)
    } else {
        let t = top_at(truth.history, id)->0;
        let r = recent.push(id);
        (
            if r.len() > 64 {
                r.skip(1)
            } else {
                r
            },
            if agree(bids, t.bids) && agree(asks, t.asks) {
                Check::Agrees
            } else {
                Check::Differs
            },
        )
    }
}

/// Compares what the node publishes with the truth, once per update id.
pub struct Checker {
    recent: Vec<u64>,
}

fn same_entries(a: &Vec<(Px, Qty)>, b: &Vec<(Px, Qty)>) -> (r: bool)
    ensures
        r == agree(a@, b@),
{
    let mut i: usize = 0;
    while i < a.len() && i < b.len()
        invariant
            i <= a.len(),
            i <= b.len(),
            forall|j: int| 0 <= j < i ==> #[trigger] a@[j] == b@[j],
        decreases a.len() - i,
    {
        if a[i].0.0 != b[i].0.0 || a[i].1.0 != b[i].1.0 {
            assert(a@[i as int] != b@[i as int]);
            return false;
        }
        i += 1;
    }
    true
}

impl Checker {
    /// The ids checked lately.
    pub closed spec fn content(&self) -> Seq<u64> {
        self.recent@
    }

    /// Nothing checked yet.
    pub fn new() -> (r: Self)
        ensures
            r.content() == Seq::<u64>::empty(),
    {
        Checker { recent: Vec::new() }
    }

    /// Compares the published top with the truth under the same update id.
    pub fn check(
        &mut self,
        truth: &Truth,
        live: bool,
        id: u64,
        bids: &Vec<(Px, Qty)>,
        asks: &Vec<(Px, Qty)>,
    ) -> (r: Check)
        ensures
            (final(self).content(), r) == check_next(
                old(self).content(),
                truth.content(),
                live,
                id,
                bids@,
                asks@,
            ),
    {
        if !live {
            return Check::Skipped;
        }
        let mut i: usize = 0;
        while i < self.recent.len()
            invariant
                i <= self.recent.len(),
                forall|j: int| 0 <= j < i ==> self.recent@[j] != id,
                self.content() == old(self).content(),
                live,
            decreases self.recent.len() - i,
        {
            if self.recent[i] == id {
                assert(self.recent@.contains(id));
                return Check::Skipped;
            }
            i += 1;
        }
        assert(!self.recent@.contains(id));
        match truth.top_of(id) {
            None => Check::Skipped,
            Some(t) => {
                let ok = same_entries(bids, &t.bids) && same_entries(asks, &t.asks);
                let ghost was = self.recent@;
                self.recent.push(id);
                if self.recent.len() > 64 {
                    self.recent.remove(0);
                    assert(self.recent@ =~= was.push(id).skip(1));
                }
                if ok {
                    Check::Agrees
                } else {
                    Check::Differs
                }
            },
        }
    }
}

/// The truth never differs from itself: a live view that shows the best levels of the
/// truth at its id is no mismatch, and one that differs in a level that both have is one,
/// unless its id was checked or is no longer known.
pub proof fn law_check_tells_the_truth(
    recent: Seq<u64>,
    truth: TruthState,
    id: u64,
    bids: Seq<(Px, Qty)>,
    asks: Seq<(Px, Qty)>,
)
    requires
        !recent.contains(id),
        top_at(truth.history, id) is Some,
    ensures
        ({
            let t = top_at(truth.history, id)->0;
            let r = check_next(recent, truth, true, id, bids, asks).1;
            &&& bids == t.bids && asks == t.asks ==> r == Check::Agrees
            &&& forall|i: int|
                0 <= i < bids.len() && i < t.bids.len() && #[trigger] bids[i] != t.bids[i] ==> r
                    == Check::Differs
            &&& forall|i: int|
                0 <= i < asks.len() && i < t.asks.len() && #[trigger] asks[i] != t.asks[i] ==> r
                    == Check::Differs
        }),
{
}

} // verus!

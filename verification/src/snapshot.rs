//! When snapshots are fetched: requests are gathered, fetches keep a distance, and failures
//! wait.

use crate::binance::RestError;
use crate::num::{add_u64, clamp_u64};
use vstd::prelude::*;

verus! {

/// Shortest distance between two fetches, ms.
pub const MIN_INTERVAL_MS: u64 = 1_000;

/// First wait after a failure, ms.
pub const BACKOFF_FIRST_MS: u64 = 500;

/// Longest wait that failures lead to by themselves, ms.
pub const BACKOFF_MAX_MS: u64 = 30_000;

/// What a [`SnapshotPace`] holds.
#[verifier::ext_equal]
pub struct PaceState {
    /// When the last fetch began, ms.
    pub last: Option<u64>,
    /// Wait after the next failure, ms.
    pub backoff: u64,
}

/// How long to wait before a fetch, so that it keeps its distance from the last one.
pub open spec fn pause_of(last: Option<u64>, now: u64) -> int {
    match last {
        Some(t) => {
            let gone = clamp_u64(now - t);
            if gone < MIN_INTERVAL_MS {
                MIN_INTERVAL_MS - gone
            } else {
                0
            }
        },
        None => 0,
    }
}

/// The wait after the next failure.
pub open spec fn longer(backoff: u64) -> u64 {
    if backoff * 2 > BACKOFF_MAX_MS {
        BACKOFF_MAX_MS
    } else {
        (backoff * 2) as u64
    }
}

/// The pace of the fetches of snapshots.
pub struct SnapshotPace {
    last: Option<u64>,
    backoff: u64,
}

impl SnapshotPace {
    /// What the pace holds.
    pub closed spec fn content(&self) -> PaceState {
        PaceState { last: self.last, backoff: self.backoff }
    }

    /// No fetch yet.
    pub fn new() -> (r: Self)
        ensures
            r.content() == (PaceState { last: None, backoff: BACKOFF_FIRST_MS }),
    {
        SnapshotPace { last: None, backoff: BACKOFF_FIRST_MS }
    }

    /// A snapshot is asked for: failures count anew.
    pub fn requested(&mut self)
        ensures
            final(self).content() == (PaceState {
                backoff: BACKOFF_FIRST_MS,
                ..old(self).content()
            }),
    {
        self.backoff = BACKOFF_FIRST_MS;
    }

    /// How long to wait before the fetch, ms.
    pub fn pause_ms(&self, now: u64) -> (r: u64)
        ensures
            r == pause_of(self.content().last, now),
    {
        match self.last {
            Some(t) => {
                let gone = now.saturating_sub(t);
                if gone < MIN_INTERVAL_MS {
                    MIN_INTERVAL_MS - gone
                } else {
                    0
                }
            },
            None => 0,
        }
    }

    /// The fetch begins.
    pub fn fetching(&mut self, now: u64)
        ensures
            final(self).content() == (PaceState { last: Some(now), ..old(self).content() }),
    {
        self.last = Some(now);
    }

    /// The fetch failed: how long to wait before the next try, ms. The server decides where
    /// it limits or bans.
    pub fn failed(&mut self, e: Option<&RestError>) -> (r: u64)
        ensures
            r == (match e {
                Some(e) => clamp_u64(e@.wait_ms(old(self).content().backoff)),
                None => old(self).content().backoff as int,
            }),
            final(self).content() == (PaceState {
                backoff: longer(old(self).content().backoff),
                ..old(self).content()
            }),
    {
        let r = match e {
            Some(e) => e.wait_ms(self.backoff),
            None => self.backoff,
        };
        self.backoff = if self.backoff > BACKOFF_MAX_MS / 2 {
            BACKOFF_MAX_MS
        } else {
            self.backoff * 2
        };
        r
    }
}

/// A fetch that waits its pause begins at least [`MIN_INTERVAL_MS`] after the last one.
pub proof fn law_fetches_spaced(last: u64, now: u64)
    requires
        last <= now,
    ensures
        now + pause_of(Some(last), now) >= last + MIN_INTERVAL_MS,
        pause_of(Some(last), now) <= MIN_INTERVAL_MS,
{
}

/// By themselves, failures never wait more than [`BACKOFF_MAX_MS`], and each waits at least
/// as long as the one before.
pub proof fn law_backoff_bounded(backoff: u64)
    requires
        BACKOFF_FIRST_MS <= backoff <= BACKOFF_MAX_MS,
    ensures
        backoff <= longer(backoff) <= BACKOFF_MAX_MS,
        backoff < BACKOFF_MAX_MS ==> backoff < longer(backoff),
{
}

/// Requests this soon after the start are not served: subscribing brings a snapshot, ms.
pub const GRACE_MS: u64 = 3_000;

/// What a [`Resubscriber`] holds.
#[verifier::ext_equal]
pub struct ResubState {
    /// When it began, ms.
    pub start: u64,
    /// Lines that can subscribe again.
    pub lines: int,
    /// The line whose turn it is.
    pub turn: int,
    /// When the last line was told, ms.
    pub last: Option<u64>,
}

/// Which line is told to subscribe again, and how long to wait before, ms. Nobody at the
/// start, nor where there is no line.
pub open spec fn resub_answer(s: ResubState, now: u64) -> Option<(int, int)> {
    if clamp_u64(now - s.start) < GRACE_MS || s.lines == 0 {
        None
    } else {
        Some((s.turn, pause_of(s.last, now)))
    }
}

/// The turns after a request.
pub open spec fn resub_next(s: ResubState, now: u64) -> ResubState {
    match resub_answer(s, now) {
        Some((line, wait)) => ResubState {
            turn: if s.turn + 1 < s.lines {
                s.turn + 1
            } else {
                0
            },
            last: Some(clamp_u64(now + wait) as u64),
            ..s
        },
        None => s,
    }
}

/// Snapshots by subscribing again: the lines take turns, and keep a distance.
pub struct Resubscriber {
    start: u64,
    lines: usize,
    turn: usize,
    last: Option<u64>,
}

impl Resubscriber {
    #[verifier::type_invariant]
    spec fn wf(self) -> bool {
        self.lines == 0 || self.turn < self.lines
    }

    /// What it holds.
    pub closed spec fn content(&self) -> ResubState {
        ResubState {
            start: self.start,
            lines: self.lines as int,
            turn: self.turn as int,
            last: self.last,
        }
    }

    /// Some lines, from an instant on.
    pub fn new(lines: usize, start: u64) -> (r: Self)
        ensures
            r.content() == (ResubState { start, lines: lines as int, turn: 0, last: None }),
    {
        Resubscriber { start, lines, turn: 0, last: None }
    }

    /// A snapshot is asked for: the line to be told, after a wait in ms.
    pub fn on_request(&mut self, now: u64) -> (r: Option<(usize, u64)>)
        ensures
            match r {
                Some((line, wait)) => resub_answer(old(self).content(), now) == Some(
                    (line as int, wait as int),
                ) && line < old(self).content().lines,
                None => resub_answer(old(self).content(), now) is None,
            },
            final(self).content() == resub_next(old(self).content(), now),
    {
        proof {
            use_type_invariant(&*self);
        }
        if now.saturating_sub(self.start) < GRACE_MS || self.lines == 0 {
            return None;
        }
        let wait = match self.last {
            Some(t) => {
                let gone = now.saturating_sub(t);
                if gone < MIN_INTERVAL_MS {
                    MIN_INTERVAL_MS - gone
                } else {
                    0
                }
            },
            None => 0,
        };
        let line = self.turn;
        self.turn = if line < self.lines - 1 {
            line + 1
        } else {
            0
        };
        self.last = Some(add_u64(now, wait));
        Some((line, wait))
    }
}

/// Each line is told in its turn: the next request that is served goes to the next line,
/// and after the last to the first.
pub proof fn law_lines_take_turns(s: ResubState, now: u64, later: u64)
    requires
        0 <= s.turn < s.lines,
        resub_answer(s, now) is Some,
        resub_answer(resub_next(s, now), later) is Some,
    ensures
        (resub_answer(resub_next(s, now), later)->0).0 == (s.turn + 1) % s.lines,
{
    if s.turn + 1 < s.lines {
        vstd::arithmetic::div_mod::lemma_small_mod((s.turn + 1) as nat, s.lines as nat);
    } else {
        vstd::arithmetic::div_mod::lemma_mod_self_0(s.lines);
    }
}

} // verus!

//! Sequence rules per venue and market.
//!
//! Each venue defines how a diff chains with the local state. The
//! synchronisation machine is generic over these rules: a new venue is a new
//! [`SeqRule`].

use vstd::prelude::*;

verus! {

/// Class of a diff with respect to the local state.
#[derive(Debug, Clone, Copy, PartialEq, Eq, Structural)]
pub enum Class {
    /// Already contained in the state: discard.
    Stale,
    /// Chains exactly: apply.
    Next,
    /// Came too early (one in between is missing): hold, waiting for the other line.
    Ahead,
    /// Inconsistent with any valid state: resynchronise.
    Invalid,
}

/// Chaining rule of a depth feed.
pub trait SeqRule: Sized {
    /// What [`SeqRule::name`] returns.
    spec fn label() -> Seq<char>;

    /// What [`SeqRule::bridge`] returns.
    spec fn bridges(&self, first: u64, last: u64, prev: Option<u64>, snap_id: u64) -> Class;

    /// What [`SeqRule::chain`] returns.
    spec fn chains(&self, first: u64, last: u64, prev: Option<u64>, local: u64) -> Class;

    /// What [`SeqRule::snapshot_too_old`] returns.
    spec fn too_old(&self, first_buffered: u64, snap_id: u64) -> bool;

    /// Name for metrics.
    fn name() -> (r: &'static str)
        ensures
            r@ == Self::label(),
    ;

    /// Classifies a diff against the last update id of a snapshot (first event to apply).
    fn bridge(&self, first: u64, last: u64, prev: Option<u64>, snap_id: u64) -> (r: Class)
        ensures
            r == self.bridges(first, last, prev, snap_id),
    ;

    /// Classifies a diff against the last id applied live.
    fn chain(&self, first: u64, last: u64, prev: Option<u64>, local: u64) -> (r: Class)
        ensures
            r == self.chains(first, last, prev, local),
    ;

    /// Whether the snapshot is older than the first captured event (a gap that
    /// nothing can bridge).
    fn snapshot_too_old(&self, first_buffered: u64, snap_id: u64) -> (r: bool)
        ensures
            r == self.too_old(first_buffered, snap_id),
    ;
}

/// Binance spot.
///
/// Discard `u <= lastUpdateId`; first event with `U <= lastUpdateId+1 <= u`; then
/// `U == u_prev + 1` (an overlap `U <= local+1 < u` is accepted: absolute
/// quantities are idempotent).
#[derive(Debug, Clone, Copy)]
pub struct BinanceSpotRule;

impl SeqRule for BinanceSpotRule {
    open spec fn label() -> Seq<char> {
        "binance_spot"@
    }

    open spec fn bridges(&self, first: u64, last: u64, prev: Option<u64>, snap_id: u64) -> Class {
        if last <= snap_id {
            Class::Stale
        } else if first <= snap_id + 1 {
            Class::Next
        } else {
            Class::Ahead
        }
    }

    open spec fn chains(&self, first: u64, last: u64, prev: Option<u64>, local: u64) -> Class {
        if last <= local {
            Class::Stale
        } else if first <= local + 1 {
            Class::Next
        } else {
            Class::Ahead
        }
    }

    open spec fn too_old(&self, first_buffered: u64, snap_id: u64) -> bool {
        snap_id + 1 < first_buffered
    }

    fn name() -> (r: &'static str) {
        "binance_spot"
    }

    fn bridge(&self, first: u64, last: u64, prev: Option<u64>, snap_id: u64) -> (r: Class) {
        if last <= snap_id {
            Class::Stale
        } else if first <= snap_id + 1 {
            Class::Next
        } else {
            Class::Ahead
        }
    }

    fn chain(&self, first: u64, last: u64, prev: Option<u64>, local: u64) -> (r: Class) {
        if last <= local {
            Class::Stale
        } else if first <= local + 1 {
            Class::Next
        } else {
            Class::Ahead
        }
    }

    fn snapshot_too_old(&self, first_buffered: u64, snap_id: u64) -> (r: bool) {
        snap_id < u64::MAX && snap_id + 1 < first_buffered
    }
}

/// Binance linear futures.
///
/// Discard `u < lastUpdateId`; first event with `U <= lastUpdateId <= u`; then
/// `pu == u_prev`. The ids are not contiguous per symbol, so the chain is
/// validated with `pu`.
#[derive(Debug, Clone, Copy)]
pub struct BinanceFuturesRule;

impl SeqRule for BinanceFuturesRule {
    open spec fn label() -> Seq<char> {
        "binance_futures"@
    }

    open spec fn bridges(&self, first: u64, last: u64, prev: Option<u64>, snap_id: u64) -> Class {
        if last < snap_id {
            Class::Stale
        } else if first <= snap_id {
            Class::Next
        } else {
            Class::Ahead
        }
    }

    open spec fn chains(&self, first: u64, last: u64, prev: Option<u64>, local: u64) -> Class {
        if last <= local {
            Class::Stale
        } else {
            match prev {
                Some(pu) => if pu == local {
                    Class::Next
                } else if pu > local {
                    Class::Ahead
                } else {
                    Class::Invalid
                },
                None => Class::Invalid,
            }
        }
    }

    open spec fn too_old(&self, first_buffered: u64, snap_id: u64) -> bool {
        snap_id < first_buffered
    }

    fn name() -> (r: &'static str) {
        "binance_futures"
    }

    fn bridge(&self, first: u64, last: u64, prev: Option<u64>, snap_id: u64) -> (r: Class) {
        if last < snap_id {
            Class::Stale
        } else if first <= snap_id {
            Class::Next
        } else {
            Class::Ahead
        }
    }

    fn chain(&self, first: u64, last: u64, prev: Option<u64>, local: u64) -> (r: Class) {
        if last <= local {
            return Class::Stale;
        }
        match prev {
            Some(pu) => if pu == local {
                Class::Next
            } else if pu > local {
                Class::Ahead
            } else {
                Class::Invalid
            },
            None => Class::Invalid,
        }
    }

    fn snapshot_too_old(&self, first_buffered: u64, snap_id: u64) -> (r: bool) {
        snap_id < first_buffered
    }
}

/// OKX v5, channel `books` (snapshot in the stream, then updates).
///
/// Each update brings in `prev` the id of the message before it (ids are not
/// contiguous). An update without changes has `prev == last` and is stale. An id
/// that goes back is invalid.
#[derive(Debug, Clone, Copy)]
pub struct OkxRule;

impl SeqRule for OkxRule {
    open spec fn label() -> Seq<char> {
        "okx"@
    }

    open spec fn bridges(&self, first: u64, last: u64, prev: Option<u64>, snap_id: u64) -> Class {
        if last <= snap_id {
            Class::Stale
        } else {
            match prev {
                Some(pu) => if pu == snap_id {
                    Class::Next
                } else if pu > snap_id {
                    Class::Ahead
                } else {
                    Class::Invalid
                },
                None => Class::Invalid,
            }
        }
    }

    open spec fn chains(&self, first: u64, last: u64, prev: Option<u64>, local: u64) -> Class {
        match prev {
            Some(pu) => if last < pu {
                Class::Invalid
            } else if last <= local {
                Class::Stale
            } else if pu == local {
                Class::Next
            } else if pu > local {
                Class::Ahead
            } else {
                Class::Invalid
            },
            None => if last <= local {
                Class::Stale
            } else {
                Class::Invalid
            },
        }
    }

    open spec fn too_old(&self, first_buffered: u64, snap_id: u64) -> bool {
        snap_id + 1 < first_buffered
    }

    fn name() -> (r: &'static str) {
        "okx"
    }

    fn bridge(&self, first: u64, last: u64, prev: Option<u64>, snap_id: u64) -> (r: Class) {
        if last <= snap_id {
            return Class::Stale;
        }
        match prev {
            Some(pu) => if pu == snap_id {
                Class::Next
            } else if pu > snap_id {
                Class::Ahead
            } else {
                Class::Invalid
            },
            None => Class::Invalid,
        }
    }

    fn chain(&self, first: u64, last: u64, prev: Option<u64>, local: u64) -> (r: Class) {
        match prev {
            Some(pu) => if last < pu {
                Class::Invalid
            } else if last <= local {
                Class::Stale
            } else if pu == local {
                Class::Next
            } else if pu > local {
                Class::Ahead
            } else {
                Class::Invalid
            },
            None => if last <= local {
                Class::Stale
            } else {
                Class::Invalid
            },
        }
    }

    fn snapshot_too_old(&self, first_buffered: u64, snap_id: u64) -> (r: bool) {
        snap_id < u64::MAX && snap_id + 1 < first_buffered
    }
}

} // verus!

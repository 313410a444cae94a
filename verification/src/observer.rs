//! Extension point of the book. Metrics plug in here with static dispatch.

use crate::book::{BookState, L2Book};
use crate::event::{DepthDiff, Side};
use crate::fixed::{Px, Qty};
use crate::sync::ResyncReason;
use vstd::prelude::*;

verus! {

/// Observer of the changes of the synchronised book.
///
/// An observer is a deterministic machine over `State`: each notification takes
/// its state to the next one.
pub trait BookObserver: Sized {
    /// What the observer remembers.
    type State;

    /// The present state.
    spec fn state(&self) -> Self::State;

    /// The state after [`BookObserver::on_level`].
    spec fn level_next(
        s: Self::State,
        side: Side,
        px: Px,
        prev: Qty,
        new: Qty,
        exch_ts_ms: u64,
    ) -> Self::State;

    /// The state after [`BookObserver::on_diff_applied`].
    spec fn diff_next(s: Self::State, d: DepthDiff) -> Self::State;

    /// The state after [`BookObserver::on_rebuild`].
    spec fn rebuild_next(s: Self::State, epoch: u64, book: BookState) -> Self::State;

    /// The state after [`BookObserver::on_invalidate`].
    spec fn invalidate_next(s: Self::State, epoch: u64, reason: ResyncReason) -> Self::State;

    /// A level changed by a live diff, from `prev` to `new` (absolute quantities).
    fn on_level(&mut self, side: Side, px: Px, prev: Qty, new: Qty, exch_ts_ms: u64)
        ensures
            final(self).state() == Self::level_next(
                old(self).state(),
                side,
                px,
                prev,
                new,
                exch_ts_ms,
            ),
    ;

    /// A whole diff was applied (it closes batches of the aligner).
    fn on_diff_applied(&mut self, d: &DepthDiff)
        ensures
            final(self).state() == Self::diff_next(old(self).state(), *d),
    ;

    /// The book was rebuilt from a snapshot: a new epoch; every derived state is void.
    fn on_rebuild(&mut self, epoch: u64, book: &L2Book)
        ensures
            final(self).state() == Self::rebuild_next(old(self).state(), epoch, book@),
    ;

    /// Synchronisation was lost: metrics in progress are contaminated.
    fn on_invalidate(&mut self, epoch: u64, reason: ResyncReason)
        ensures
            final(self).state() == Self::invalidate_next(old(self).state(), epoch, reason),
    ;
}

/// The observer that ignores everything.
impl BookObserver for () {
    type State = ();

    open spec fn state(&self) -> () {
        ()
    }

    open spec fn level_next(s: (), side: Side, px: Px, prev: Qty, new: Qty, exch_ts_ms: u64) -> () {
        ()
    }

    open spec fn diff_next(s: (), d: DepthDiff) -> () {
        ()
    }

    open spec fn rebuild_next(s: (), epoch: u64, book: BookState) -> () {
        ()
    }

    open spec fn invalidate_next(s: (), epoch: u64, reason: ResyncReason) -> () {
        ()
    }

    fn on_level(&mut self, side: Side, px: Px, prev: Qty, new: Qty, exch_ts_ms: u64) {
    }

    fn on_diff_applied(&mut self, d: &DepthDiff) {
    }

    fn on_rebuild(&mut self, epoch: u64, book: &L2Book) {
    }

    fn on_invalidate(&mut self, epoch: u64, reason: ResyncReason) {
    }
}

} // verus!

//! L2 book of one venue and market. A pure structure: it knows nothing of
//! sequences nor of the network.

use crate::event::{DepthSnapshot, Level, Side};
use crate::fixed::{Px, Qty};
use crate::ordmap::{del, find, put, sorted, SortedMap};
use vstd::prelude::*;

verus! {

/// Region of the book that the snapshot guarantees as complete.
///
/// A snapshot brings at most `limit` levels per side. Where a side came full, the
/// levels beyond the last one are unknown: the diff stream only reports changes,
/// so a far level that did not change never shows up. `None` means a complete
/// side, or no data.
#[derive(Debug, Clone, Copy, PartialEq, Eq, Structural)]
pub struct Coverage {
    /// Bids below this price are unknown.
    pub bid_floor: Option<Px>,
    /// Asks above this price are unknown.
    pub ask_ceiling: Option<Px>,
}

impl Default for Coverage {
    /// Both sides complete.
    fn default() -> (r: Self)
        ensures
            r == (Coverage { bid_floor: None, ask_ceiling: None }),
    {
        Coverage { bid_floor: None, ask_ceiling: None }
    }
}

/// What an [`L2Book`] holds.
#[verifier::ext_equal]
pub struct BookState {
    /// Bids in increasing price order: the best is the last.
    pub bids: Seq<(Px, Qty)>,
    /// Asks in increasing price order: the best is the first.
    pub asks: Seq<(Px, Qty)>,
    /// Coverage that the last snapshot fixed.
    pub fixed: Coverage,
    /// The coverage follows the levels present.
    pub rolling: bool,
}

/// A ladder after fixing the absolute quantity of one level (0 removes it).
pub open spec fn ladder_set(s: Seq<(Px, Qty)>, px: Px, qty: Qty) -> Seq<(Px, Qty)> {
    if qty.0 == 0 {
        del(s, px)
    } else {
        put(s, px, qty)
    }
}

/// The quantity at a price of a ladder (0 where there is no level).
pub open spec fn ladder_qty(s: Seq<(Px, Qty)>, px: Px) -> Qty {
    match find(s, px) {
        Some(q) => q,
        None => Qty(0),
    }
}

/// The ladder that the levels of a snapshot give: the positive ones, the last of
/// each price.
pub open spec fn ladder_of(levels: Seq<Level>) -> Seq<(Px, Qty)>
    decreases levels.len(),
{
    if levels.len() == 0 {
        Seq::empty()
    } else {
        let s = ladder_of(levels.drop_last());
        let l = levels.last();
        if l.qty.0 > 0 {
            put(s, l.px, l.qty)
        } else {
            s
        }
    }
}

/// The lowest price among the levels.
pub open spec fn lowest(levels: Seq<Level>) -> Option<Px>
    decreases levels.len(),
{
    if levels.len() == 0 {
        None
    } else {
        let l = levels.last();
        match lowest(levels.drop_last()) {
            Some(p) if p.0 <= l.px.0 => Some(p),
            _ => Some(l.px),
        }
    }
}

/// The highest price among the levels.
pub open spec fn highest(levels: Seq<Level>) -> Option<Px>
    decreases levels.len(),
{
    if levels.len() == 0 {
        None
    } else {
        let l = levels.last();
        match highest(levels.drop_last()) {
            Some(p) if p.0 >= l.px.0 => Some(p),
            _ => Some(l.px),
        }
    }
}

impl BookState {
    /// The empty book.
    pub open spec fn empty() -> BookState {
        BookState {
            bids: Seq::empty(),
            asks: Seq::empty(),
            fixed: Coverage { bid_floor: None, ask_ceiling: None },
            rolling: false,
        }
    }

    /// The book that a snapshot gives.
    pub open spec fn of_snapshot(s: DepthSnapshot) -> BookState {
        BookState {
            bids: ladder_of(s.bids@),
            asks: ladder_of(s.asks@),
            fixed: Coverage {
                bid_floor: if s.limit > 0 && s.bids@.len() >= s.limit {
                    lowest(s.bids@)
                } else {
                    None
                },
                ask_ceiling: if s.limit > 0 && s.asks@.len() >= s.limit {
                    highest(s.asks@)
                } else {
                    None
                },
            },
            rolling: s.rolling,
        }
    }

    /// The book after fixing one level.
    pub open spec fn with_level(self, side: Side, px: Px, qty: Qty) -> BookState {
        match side {
            Side::Bid => BookState { bids: ladder_set(self.bids, px, qty), ..self },
            Side::Ask => BookState { asks: ladder_set(self.asks, px, qty), ..self },
        }
    }

    /// The ladder of a side.
    pub open spec fn side(self, side: Side) -> Seq<(Px, Qty)> {
        match side {
            Side::Bid => self.bids,
            Side::Ask => self.asks,
        }
    }

    /// The best bid: the highest.
    pub open spec fn best_bid(self) -> Option<(Px, Qty)> {
        if self.bids.len() == 0 {
            None
        } else {
            Some(self.bids.last())
        }
    }

    /// The best ask: the lowest.
    pub open spec fn best_ask(self) -> Option<(Px, Qty)> {
        if self.asks.len() == 0 {
            None
        } else {
            Some(self.asks[0])
        }
    }

    /// The best bid reaches the best ask.
    pub open spec fn crossed(self) -> bool {
        match (self.best_bid(), self.best_ask()) {
            (Some(b), Some(a)) => b.0.0 >= a.0.0,
            _ => false,
        }
    }

    /// The coverage at this instant: what the snapshot fixed or, in a rolling
    /// book, the worst level present on each side.
    pub open spec fn coverage(self) -> Coverage {
        if self.rolling {
            Coverage {
                bid_floor: if self.bids.len() == 0 {
                    None
                } else {
                    Some(self.bids[0].0)
                },
                ask_ceiling: if self.asks.len() == 0 {
                    None
                } else {
                    Some(self.asks.last().0)
                },
            }
        } else {
            self.fixed
        }
    }

    /// The price falls in the known region of the side.
    pub open spec fn covers(self, side: Side, px: Px) -> bool {
        match side {
            Side::Bid => match self.coverage().bid_floor {
                Some(f) => px.0 >= f.0,
                None => true,
            },
            Side::Ask => match self.coverage().ask_ceiling {
                Some(c) => px.0 <= c.0,
                None => true,
            },
        }
    }

    /// Both ladders are in strictly increasing price order.
    pub open spec fn wf(self) -> bool {
        sorted(self.bids) && sorted(self.asks)
    }
}

/// L2 book with ordered prices.
pub struct L2Book {
    bids: SortedMap<Px, Qty>,
    asks: SortedMap<Px, Qty>,
    fixed: Coverage,
    rolling: bool,
}

impl View for L2Book {
    type V = BookState;

    closed spec fn view(&self) -> BookState {
        BookState {
            bids: self.bids@,
            asks: self.asks@,
            fixed: self.fixed,
            rolling: self.rolling,
        }
    }
}

/// Loads the positive levels into an empty ladder.
fn load_side(levels: &Vec<Level>) -> (m: SortedMap<Px, Qty>)
    ensures
        m@ == ladder_of(levels@),
{
    let mut m: SortedMap<Px, Qty> = SortedMap::new();
    let mut i: usize = 0;
    while i < levels.len()
        invariant
            i <= levels@.len(),
            m@ == ladder_of(levels@.take(i as int)),
        decreases levels@.len() - i,
    {
        let l = levels[i];
        assert(levels@.take(i + 1).drop_last() =~= levels@.take(i as int));
        if l.qty.is_positive() {
            m.insert(l.px, l.qty);
        }
        i += 1;
    }
    assert(levels@.take(i as int) =~= levels@);
    m
}

/// The lowest price.
fn lowest_px(levels: &Vec<Level>) -> (r: Option<Px>)
    ensures
        r == lowest(levels@),
{
    let mut best: Option<Px> = None;
    let mut i: usize = 0;
    while i < levels.len()
        invariant
            i <= levels@.len(),
            best == lowest(levels@.take(i as int)),
        decreases levels@.len() - i,
    {
        let p = levels[i].px;
        assert(levels@.take(i + 1).drop_last() =~= levels@.take(i as int));
        best = match best {
            Some(b) if b.0 <= p.0 => Some(b),
            _ => Some(p),
        };
        i += 1;
    }
    assert(levels@.take(i as int) =~= levels@);
    best
}

/// The highest price.
fn highest_px(levels: &Vec<Level>) -> (r: Option<Px>)
    ensures
        r == highest(levels@),
{
    let mut best: Option<Px> = None;
    let mut i: usize = 0;
    while i < levels.len()
        invariant
            i <= levels@.len(),
            best == highest(levels@.take(i as int)),
        decreases levels@.len() - i,
    {
        let p = levels[i].px;
        assert(levels@.take(i + 1).drop_last() =~= levels@.take(i as int));
        best = match best {
            Some(b) if b.0 >= p.0 => Some(b),
            _ => Some(p),
        };
        i += 1;
    }
    assert(levels@.take(i as int) =~= levels@);
    best
}

/// Fixes the absolute quantity of one level and gives the previous one.
fn set_level(m: &mut SortedMap<Px, Qty>, px: Px, qty: Qty) -> (prev: Qty)
    ensures
        final(m)@ == ladder_set(old(m)@, px, qty),
        prev == ladder_qty(old(m)@, px),
{
    if qty.is_zero() {
        match m.remove(&px) {
            Some(q) => q,
            None => Qty(0),
        }
    } else {
        let prev = match m.get(&px) {
            Some(q) => *q,
            None => Qty(0),
        };
        m.insert(px, qty);
        prev
    }
}

impl L2Book {
    /// The empty book.
    pub fn new() -> (r: Self)
        ensures
            r@ == BookState::empty(),
    {
        L2Book {
            bids: SortedMap::new(),
            asks: SortedMap::new(),
            fixed: Coverage { bid_floor: None, ask_ceiling: None },
            rolling: false,
        }
    }

    /// Empties the book and its coverage.
    pub fn clear(&mut self)
        ensures
            final(self)@ == BookState::empty(),
    {
        *self = L2Book::new();
    }

    /// Replaces the content by a snapshot and computes the coverage.
    pub fn load_snapshot(&mut self, s: &DepthSnapshot)
        ensures
            final(self)@ == BookState::of_snapshot(*s),
    {
        let bids = load_side(&s.bids);
        let asks = load_side(&s.asks);
        let bid_floor = if s.limit > 0 && s.bids.len() >= s.limit {
            lowest_px(&s.bids)
        } else {
            None
        };
        let ask_ceiling = if s.limit > 0 && s.asks.len() >= s.limit {
            highest_px(&s.asks)
        } else {
            None
        };
        *self =
        L2Book { bids, asks, fixed: Coverage { bid_floor, ask_ceiling }, rolling: s.rolling };
    }

    /// Fixes the absolute quantity of a level (0 removes it). Gives the previous
    /// quantity (0 if there was no level).
    pub fn set(&mut self, side: Side, px: Px, qty: Qty) -> (prev: Qty)
        ensures
            final(self)@ == old(self)@.with_level(side, px, qty),
            prev == ladder_qty(old(self)@.side(side), px),
    {
        match side {
            Side::Bid => set_level(&mut self.bids, px, qty),
            Side::Ask => set_level(&mut self.asks, px, qty),
        }
    }

    /// The best bid.
    pub fn best_bid(&self) -> (r: Option<(Px, Qty)>)
        ensures
            r == self@.best_bid(),
    {
        let n = self.bids.len();
        if n == 0 {
            None
        } else {
            Some((*self.bids.key_at(n - 1), *self.bids.value_at(n - 1)))
        }
    }

    /// The best ask.
    pub fn best_ask(&self) -> (r: Option<(Px, Qty)>)
        ensures
            r == self@.best_ask(),
    {
        if self.asks.is_empty() {
            None
        } else {
            Some((*self.asks.key_at(0), *self.asks.value_at(0)))
        }
    }

    /// A crossed or locked book (bid at or over ask): impossible in one healthy venue.
    pub fn is_crossed(&self) -> (r: bool)
        ensures
            r == self@.crossed(),
    {
        match (self.best_bid(), self.best_ask()) {
            (Some(b), Some(a)) => b.0.0 >= a.0.0,
            _ => false,
        }
    }

    /// The quantity at a level (0 if there is none).
    pub fn qty_at(&self, side: Side, px: Px) -> (r: Qty)
        ensures
            r == ladder_qty(self@.side(side), px),
    {
        let m = match side {
            Side::Bid => &self.bids,
            Side::Ask => &self.asks,
        };
        match m.get(&px) {
            Some(q) => *q,
            None => Qty(0),
        }
    }

    /// Bids from best to worst.
    pub fn bids_desc(&self) -> (r: Vec<(Px, Qty)>)
        ensures
            r@ == self@.bids.reverse(),
    {
        let mut v: Vec<(Px, Qty)> = Vec::new();
        let n = self.bids.len();
        let mut i: usize = 0;
        while i < n
            invariant
                i <= n == self.bids@.len(),
                v@.len() == i,
                forall|j: int| 0 <= j < i ==> v@[j] == self.bids@[n - 1 - j],
            decreases n - i,
        {
            v.push((*self.bids.key_at(n - 1 - i), *self.bids.value_at(n - 1 - i)));
            i += 1;
        }
        assert(v@ =~= self@.bids.reverse());
        v
    }

    /// Asks from best to worst.
    pub fn asks_asc(&self) -> (r: Vec<(Px, Qty)>)
        ensures
            r@ == self@.asks,
    {
        let mut v: Vec<(Px, Qty)> = Vec::new();
        let n = self.asks.len();
        let mut i: usize = 0;
        while i < n
            invariant
                i <= n == self.asks@.len(),
                v@ == self.asks@.take(i as int),
            decreases n - i,
        {
            v.push((*self.asks.key_at(i), *self.asks.value_at(i)));
            i += 1;
        }
        assert(v@ =~= self@.asks);
        v
    }

    /// The bids, in increasing price order.
    pub fn bids(&self) -> (r: &SortedMap<Px, Qty>)
        ensures
            r@ == self@.bids,
    {
        &self.bids
    }

    /// The asks, in increasing price order.
    pub fn asks(&self) -> (r: &SortedMap<Px, Qty>)
        ensures
            r@ == self@.asks,
    {
        &self.asks
    }

    /// Number of levels per side.
    pub fn depth_len(&self) -> (r: (usize, usize))
        ensures
            r.0 == self@.bids.len(),
            r.1 == self@.asks.len(),
            self@.wf(),
    {
        (self.bids.len(), self.asks.len())
    }

    /// The coverage guaranteed at this instant.
    pub fn coverage(&self) -> (r: Coverage)
        ensures
            r == self@.coverage(),
    {
        if self.rolling {
            let n = self.asks.len();
            Coverage {
                bid_floor: if self.bids.is_empty() {
                    None
                } else {
                    Some(*self.bids.key_at(0))
                },
                ask_ceiling: if n == 0 {
                    None
                } else {
                    Some(*self.asks.key_at(n - 1))
                },
            }
        } else {
            self.fixed
        }
    }

    /// Whether the coverage follows the levels present.
    pub fn is_rolling(&self) -> (r: bool)
        ensures
            r == self@.rolling,
    {
        self.rolling
    }

    /// Whether the price falls in the known region of the side.
    pub fn is_covered(&self, side: Side, px: Px) -> (r: bool)
        ensures
            r == self@.covers(side, px),
    {
        let c = self.coverage();
        match side {
            Side::Bid => match c.bid_floor {
                Some(f) => px.0 >= f.0,
                None => true,
            },
            Side::Ask => match c.ask_ceiling {
                Some(k) => px.0 <= k.0,
                None => true,
            },
        }
    }
}

impl Default for L2Book {
    /// The empty book.
    fn default() -> (r: Self)
        ensures
            r@ == BookState::empty(),
    {
        L2Book::new()
    }
}

} // verus!

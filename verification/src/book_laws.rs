//! What a book is: levels by price, the best of each side, and what is known of it.

use crate::book::{highest, ladder_of, ladder_qty, ladder_set, lowest, BookState};
use crate::event::{DepthSnapshot, Level, Side};
use crate::fixed::{Px, Qty};
use crate::ordmap::{del, find, key_lt, lemma_del, lemma_entry_found, lemma_put, put, rank, sorted};
use vstd::prelude::*;

verus! {

/// A ladder has a level at a price with a quantity.
pub open spec fn has_level(s: Seq<(Px, Qty)>, px: Px, qty: Qty) -> bool {
    exists|i: int| 0 <= i < s.len() && #[trigger] s[i] == (px, qty)
}

/// The prices of a ladder grow.
pub open spec fn grows(s: Seq<(Px, Qty)>) -> bool {
    forall|i: int, j: int|
        #![trigger s[i], s[j]]
        0 <= i < j < s.len() ==> s[i].0.0 < s[j].0.0
}

/// The quantity at a price is that of its level, and zero where there is none.
proof fn lemma_quantity(s: Seq<(Px, Qty)>, px: Px)
    requires
        sorted(s),
    ensures
        grows(s),
        forall|q: Qty| #[trigger] has_level(s, px, q) ==> ladder_qty(s, px) == q,
        (forall|i: int| 0 <= i < s.len() ==> (#[trigger] s[i]).0 != px) ==> ladder_qty(s, px).0
            == 0,
        find(s, px) matches Some(q) ==> has_level(s, px, q),
        find(s, px) is None ==> forall|i: int| 0 <= i < s.len() ==> (#[trigger] s[i]).0 != px,
{
    assert forall|i: int, j: int|
        #![trigger s[i], s[j]]
        0 <= i < j < s.len() implies s[i].0.0 < s[j].0.0 by {
        assert(key_lt(s[i].0, s[j].0));
    }
    assert forall|q: Qty| #[trigger] has_level(s, px, q) implies ladder_qty(s, px) == q by {
        let i = choose|i: int| 0 <= i < s.len() && #[trigger] s[i] == (px, q);
        lemma_entry_found(s, i);
    }
    if find(s, px) is Some {
        let i = rank(s, px) as int;
        assert(s[i] == (px, find(s, px)->0));
        assert(has_level(s, px, find(s, px)->0));
    } else {
        assert forall|i: int| 0 <= i < s.len() implies (#[trigger] s[i]).0 != px by {
            lemma_entry_found(s, i);
        }
    }
}

/// The quantity that a book tells of a price is that of the level there, and zero where
/// there is none. The levels of each side are in increasing order of price, one for each.
pub proof fn law_quantity_is_of_the_level(b: BookState, side: Side, px: Px)
    requires
        b.wf(),
    ensures
        grows(b.side(side)),
        side == Side::Bid ==> b.side(side) == b.bids,
        side == Side::Ask ==> b.side(side) == b.asks,
        forall|q: Qty| #[trigger]
            has_level(b.side(side), px, q) ==> ladder_qty(b.side(side), px) == q,
        (forall|i: int| 0 <= i < b.side(side).len() ==> (#[trigger] b.side(side)[i]).0 != px)
            ==> ladder_qty(b.side(side), px).0 == 0,
{
    lemma_quantity(b.side(side), px);
}

/// Fixing a level gives its price that quantity and leaves every other price of both sides
/// as it was. The level is there afterwards unless the quantity is zero.
pub proof fn law_level_is_fixed(b: BookState, side: Side, px: Px, qty: Qty, other: Px)
    requires
        b.wf(),
    ensures
        ({
            let n = b.with_level(side, px, qty);
            &&& n.wf()
            &&& ladder_qty(n.side(side), px) == qty
            &&& qty.0 != 0 ==> has_level(n.side(side), px, qty)
            &&& qty.0 == 0 ==> forall|i: int|
                0 <= i < n.side(side).len() ==> (#[trigger] n.side(side)[i]).0 != px
            &&& other != px ==> ladder_qty(n.side(side), other) == ladder_qty(b.side(side), other)
            &&& side == Side::Bid ==> n.asks == b.asks
            &&& side == Side::Ask ==> n.bids == b.bids
            &&& n.fixed == b.fixed
            &&& n.rolling == b.rolling
        }),
{
    let s = b.side(side);
    let t = ladder_set(s, px, qty);
    if qty.0 == 0 {
        lemma_del(s, px);
        assert(find(del(s, px), px) is None);
        assert(find(del(s, px), other) == (if other == px {
            None
        } else {
            find(s, other)
        }));
    } else {
        lemma_put(s, px, qty);
        assert(find(put(s, px, qty), px) == Some(qty));
        assert(find(put(s, px, qty), other) == (if other == px {
            Some(qty)
        } else {
            find(s, other)
        }));
    }
    lemma_quantity(t, px);
}

/// The best bid is the highest one and the best ask the lowest one, with their quantities;
/// there is none only on an empty side. The book is crossed where some bid reaches some ask.
pub proof fn law_best_is_best(b: BookState)
    requires
        b.wf(),
    ensures
        b.best_bid() is None <==> b.bids.len() == 0,
        b.best_ask() is None <==> b.asks.len() == 0,
        b.best_bid() matches Some(l) ==> has_level(b.bids, l.0, l.1) && forall|i: int|
            0 <= i < b.bids.len() ==> (#[trigger] b.bids[i]).0.0 <= l.0.0,
        b.best_ask() matches Some(l) ==> has_level(b.asks, l.0, l.1) && forall|i: int|
            0 <= i < b.asks.len() ==> l.0.0 <= (#[trigger] b.asks[i]).0.0,
        b.crossed() <==> exists|i: int, j: int|
            #![trigger b.bids[i], b.asks[j]]
            0 <= i < b.bids.len() && 0 <= j < b.asks.len() && b.bids[i].0.0 >= b.asks[j].0.0,
{
    lemma_quantity(b.bids, Px(0));
    lemma_quantity(b.asks, Px(0));
    if b.bids.len() > 0 {
        let n = b.bids.len() - 1;
        assert(b.bids[n] == b.bids.last());
        assert forall|i: int| 0 <= i < b.bids.len() implies (#[trigger] b.bids[i]).0.0
            <= b.bids.last().0.0 by {
            if i < n {
                assert(b.bids[i].0.0 < b.bids[n].0.0);
            }
        }
    }
    if b.asks.len() > 0 {
        assert forall|i: int| 0 <= i < b.asks.len() implies b.asks[0].0.0
            <= (#[trigger] b.asks[i]).0.0 by {
            if 0 < i {
                assert(b.asks[0].0.0 < b.asks[i].0.0);
            }
        }
    }
    if b.crossed() {
        assert(b.bids[b.bids.len() - 1].0.0 >= b.asks[0].0.0);
    }
}

/// The level at `i` is the last positive one of its price.
pub open spec fn last_positive(levels: Seq<Level>, i: int) -> bool {
    &&& 0 <= i < levels.len()
    &&& levels[i].qty.0 > 0
    &&& forall|j: int|
        i < j < levels.len() && (#[trigger] levels[j]).px == levels[i].px ==> levels[j].qty.0 <= 0
}

proof fn lemma_loaded_sorted(levels: Seq<Level>)
    ensures
        sorted(ladder_of(levels)),
    decreases levels.len(),
{
    if levels.len() > 0 {
        lemma_loaded_sorted(levels.drop_last());
        lemma_put(ladder_of(levels.drop_last()), levels.last().px, levels.last().qty);
    }
}

proof fn lemma_positive_before(levels: Seq<Level>, i: int)
    requires
        last_positive(levels, i),
        i < levels.len() - 1,
    ensures
        last_positive(levels.drop_last(), i),
        levels.drop_last()[i] == levels[i],
        levels.last().px == levels[i].px ==> levels.last().qty.0 <= 0,
{
    let u = levels.drop_last();
    assert(levels[levels.len() - 1] == levels.last());
    assert forall|j: int| i < j < u.len() && (#[trigger] u[j]).px == u[i].px implies u[j].qty.0
        <= 0 by {
        assert(u[j] == levels[j]);
    }
}

proof fn lemma_loaded(levels: Seq<Level>, i: int)
    requires
        last_positive(levels, i),
    ensures
        ladder_qty(ladder_of(levels), levels[i].px) == levels[i].qty,
    decreases levels.len(),
{
    let u = levels.drop_last();
    let n = levels.len() - 1;
    let s = ladder_of(u);
    let l = levels.last();
    let px = levels[i].px;
    assert(ladder_of(levels) == if l.qty.0 > 0 {
        put(s, l.px, l.qty)
    } else {
        s
    });
    lemma_loaded_sorted(u);
    lemma_put(s, l.px, l.qty);
    assert(find(put(s, l.px, l.qty), px) == (if px == l.px {
        Some(l.qty)
    } else {
        find(s, px)
    }));
    if i < n {
        lemma_positive_before(levels, i);
        lemma_loaded(u, i);
    } else {
        assert(levels[i] == l);
    }
}

proof fn lemma_not_loaded(levels: Seq<Level>, px: Px)
    requires
        forall|i: int|
            0 <= i < levels.len() && (#[trigger] levels[i]).px == px ==> levels[i].qty.0 <= 0,
    ensures
        ladder_qty(ladder_of(levels), px).0 == 0,
    decreases levels.len(),
{
    if levels.len() > 0 {
        let u = levels.drop_last();
        let n = levels.len() - 1;
        let s = ladder_of(u);
        let l = levels.last();
        assert(l == levels[n]);
        lemma_loaded_sorted(u);
        lemma_put(s, l.px, l.qty);
        assert(find(put(s, l.px, l.qty), px) == (if px == l.px {
            Some(l.qty)
        } else {
            find(s, px)
        }));
        assert(levels[n].px == px ==> levels[n].qty.0 <= 0);
        assert forall|i: int| 0 <= i < u.len() && (#[trigger] u[i]).px == px implies u[i].qty.0
            <= 0 by {
            assert(u[i] == levels[i]);
        }
        lemma_not_loaded(u, px);
    } else {
        assert(ladder_of(levels).len() == 0);
    }
}

/// The same of one side.
proof fn lemma_side_loaded(levels: Seq<Level>, px: Px)
    ensures
        sorted(ladder_of(levels)),
        forall|i: int| #[trigger]
            last_positive(levels, i) && levels[i].px == px ==> ladder_qty(ladder_of(levels), px)
                == levels[i].qty,
        (forall|i: int|
            0 <= i < levels.len() && (#[trigger] levels[i]).px == px ==> levels[i].qty.0 <= 0)
            ==> ladder_qty(ladder_of(levels), px).0 == 0,
{
    lemma_loaded_sorted(levels);
    assert forall|i: int| #[trigger] last_positive(levels, i) && levels[i].px == px implies ladder_qty(
        ladder_of(levels),
        px,
    ) == levels[i].qty by {
        lemma_loaded(levels, i);
    }
    if forall|i: int|
        0 <= i < levels.len() && (#[trigger] levels[i]).px == px ==> levels[i].qty.0 <= 0 {
        lemma_not_loaded(levels, px);
    }
}

/// A snapshot makes the book: each of its positive levels is there, with the last quantity
/// told for its price, on its own side, and no other price is.
pub proof fn law_snapshot_makes_the_book(s: DepthSnapshot, px: Px)
    ensures
        ({
            let b = BookState::of_snapshot(s);
            &&& b.wf()
            &&& forall|i: int| #[trigger]
                last_positive(s.bids@, i) && s.bids@[i].px == px ==> ladder_qty(b.bids, px)
                    == s.bids@[i].qty
            &&& forall|i: int| #[trigger]
                last_positive(s.asks@, i) && s.asks@[i].px == px ==> ladder_qty(b.asks, px)
                    == s.asks@[i].qty
            &&& (forall|i: int|
                0 <= i < s.bids@.len() && (#[trigger] s.bids@[i]).px == px ==> s.bids@[i].qty.0
                    <= 0) ==> ladder_qty(b.bids, px).0 == 0
            &&& (forall|i: int|
                0 <= i < s.asks@.len() && (#[trigger] s.asks@[i]).px == px ==> s.asks@[i].qty.0
                    <= 0) ==> ladder_qty(b.asks, px).0 == 0
            &&& b.rolling == s.rolling
        }),
{
    lemma_side_loaded(s.bids@, px);
    lemma_side_loaded(s.asks@, px);
}

proof fn lemma_ends_of(levels: Seq<Level>)
    ensures
        lowest(levels) is None <==> levels.len() == 0,
        highest(levels) is None <==> levels.len() == 0,
        lowest(levels) matches Some(p) ==> (exists|i: int|
            0 <= i < levels.len() && (#[trigger] levels[i]).px == p) && forall|i: int|
            0 <= i < levels.len() ==> p.0 <= (#[trigger] levels[i]).px.0,
        highest(levels) matches Some(p) ==> (exists|i: int|
            0 <= i < levels.len() && (#[trigger] levels[i]).px == p) && forall|i: int|
            0 <= i < levels.len() ==> (#[trigger] levels[i]).px.0 <= p.0,
    decreases levels.len(),
{
    if levels.len() > 0 {
        let u = levels.drop_last();
        let n = levels.len() - 1;
        lemma_ends_of(u);
        assert(levels[n] == levels.last());
        assert forall|i: int| 0 <= i < n implies #[trigger] levels[i] == u[i] by {}
        if let Some(p) = lowest(u) {
            let i = choose|i: int| 0 <= i < u.len() && (#[trigger] u[i]).px == p;
            assert(levels[i].px == p);
        }
        if let Some(p) = highest(u) {
            let i = choose|i: int| 0 <= i < u.len() && (#[trigger] u[i]).px == p;
            assert(levels[i].px == p);
        }
    }
}

/// What a snapshot leaves unknown: only where a side came full, what lies beyond its last
/// level, which is the lowest bid told and the highest ask. A book of diffs keeps it; in a
/// rolling book it is what lies beyond the levels present.
pub proof fn law_beyond_a_full_side_is_unknown(s: DepthSnapshot)
    ensures
        ({
            let c = BookState::of_snapshot(s).fixed;
            let bids = s.bids@;
            let asks = s.asks@;
            &&& c.bid_floor is Some <==> s.limit > 0 && bids.len() >= s.limit
            &&& c.ask_ceiling is Some <==> s.limit > 0 && asks.len() >= s.limit
            &&& c.bid_floor matches Some(p) ==> (exists|i: int|
                0 <= i < bids.len() && (#[trigger] bids[i]).px == p) && forall|i: int|
                0 <= i < bids.len() ==> p.0 <= (#[trigger] bids[i]).px.0
            &&& c.ask_ceiling matches Some(p) ==> (exists|i: int|
                0 <= i < asks.len() && (#[trigger] asks[i]).px == p) && forall|i: int|
                0 <= i < asks.len() ==> (#[trigger] asks[i]).px.0 <= p.0
        }),
{
    lemma_ends_of(s.bids@);
    lemma_ends_of(s.asks@);
}

/// A price is known unless it is a bid under the floor or an ask over the ceiling. The floor
/// and the ceiling are those of the snapshot or, in a rolling book, the lowest bid and the
/// highest ask present.
pub proof fn law_coverage_bounds_what_is_known(b: BookState, px: Px)
    requires
        b.wf(),
    ensures
        b.covers(Side::Bid, px) <==> (b.coverage().bid_floor matches Some(f) ==> f.0 <= px.0),
        b.covers(Side::Ask, px) <==> (b.coverage().ask_ceiling matches Some(c) ==> px.0 <= c.0),
        !b.rolling ==> b.coverage() == b.fixed,
        b.rolling ==> (b.coverage().bid_floor is None <==> b.bids.len() == 0) && (
        b.coverage().ask_ceiling is None <==> b.asks.len() == 0),
        b.rolling ==> forall|i: int|
            0 <= i < b.bids.len() ==> b.covers(Side::Bid, (#[trigger] b.bids[i]).0),
        b.rolling ==> forall|i: int|
            0 <= i < b.asks.len() ==> b.covers(Side::Ask, (#[trigger] b.asks[i]).0),
        b.rolling ==> (b.coverage().bid_floor matches Some(f) ==> exists|i: int|
            0 <= i < b.bids.len() && (#[trigger] b.bids[i]).0 == f),
        b.rolling ==> (b.coverage().ask_ceiling matches Some(c) ==> exists|i: int|
            0 <= i < b.asks.len() && (#[trigger] b.asks[i]).0 == c),
{
    lemma_quantity(b.bids, px);
    lemma_quantity(b.asks, px);
    if b.rolling {
        assert forall|i: int| 0 <= i < b.bids.len() implies b.covers(
            Side::Bid,
            (#[trigger] b.bids[i]).0,
        ) by {
            if i > 0 {
                assert(b.bids[0].0.0 < b.bids[i].0.0);
            }
        }
        assert forall|i: int| 0 <= i < b.asks.len() implies b.covers(
            Side::Ask,
            (#[trigger] b.asks[i]).0,
        ) by {
            let n = b.asks.len() - 1;
            assert(b.asks[n] == b.asks.last());
            if i < n {
                assert(b.asks[i].0.0 < b.asks[n].0.0);
            }
        }
        if b.asks.len() > 0 {
            assert(b.asks[b.asks.len() - 1].0 == b.asks.last().0);
        }
    }
}

} // verus!

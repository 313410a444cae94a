//! Which markets the node runs, and by which rules.

use crate::instrument::{MarketId, MarketKind, Venue};
use crate::text::ends;
use crate::words::{strip_char, without};
use vstd::prelude::*;
use vstd::string::StringExecFns;

verus! {

/// The rule by which the diffs of a market chain.
#[derive(Debug, Clone, Copy, PartialEq, Eq, Structural)]
pub enum Rule {
    /// Contiguous ids.
    BinanceSpot,
    /// Each diff tells the last id of the one before.
    BinanceFutures,
    /// Each diff tells the id before it.
    Okx,
}

/// A market to run.
pub struct Planned {
    /// The market.
    pub market: MarketId,
    /// Its key in the API: `spot`, or `okx.spot` with several venues.
    pub key: String,
    /// Its rule.
    pub rule: Rule,
}

/// What a [`Planned`] holds.
#[verifier::ext_equal]
pub struct PlanShow {
    /// Venue.
    pub venue: Venue,
    /// Kind.
    pub kind: MarketKind,
    /// Symbol.
    pub symbol: Seq<char>,
    /// Key.
    pub key: Seq<char>,
    /// Rule.
    pub rule: Rule,
}

impl View for Planned {
    type V = PlanShow;

    open spec fn view(&self) -> PlanShow {
        PlanShow {
            venue: self.market.venue,
            kind: self.market.kind,
            symbol: self.market.symbol@,
            key: self.key@,
            rule: self.rule,
        }
    }
}

/// What some planned markets hold.
pub open spec fn plans(v: Seq<Planned>) -> Seq<PlanShow> {
    Seq::new(v.len(), |i: int| v[i]@)
}

/// The rule of a market. Coinbase has a contiguous counter that tells the one before, as
/// OKX does.
pub open spec fn rule_of(venue: Venue, kind: MarketKind) -> Rule {
    match (venue, kind) {
        (Venue::Okx, _) => Rule::Okx,
        (Venue::Coinbase, _) => Rule::Okx,
        (_, MarketKind::Spot) => Rule::BinanceSpot,
        (_, MarketKind::Perp) => Rule::BinanceFutures,
    }
}

/// One market of the plan.
pub open spec fn plan_of(
    venue: Venue,
    kind: MarketKind,
    symbol: Seq<char>,
    product: Seq<char>,
    multi: bool,
) -> PlanShow {
    PlanShow {
        venue,
        kind,
        symbol: if venue == Venue::Coinbase {
            without(product, '-')
        } else {
            symbol
        },
        key: if multi {
            venue.label() + "."@ + kind.label()
        } else {
            kind.label()
        },
        rule: rule_of(venue, kind),
    }
}

/// The exchange has the market: Coinbase has no perpetuals.
pub open spec fn has_market(venue: Venue, kind: MarketKind) -> bool {
    !(venue == Venue::Coinbase && kind == MarketKind::Perp)
}

/// The markets of a venue.
pub open spec fn venue_plan(
    venue: Venue,
    kinds: Seq<MarketKind>,
    symbol: Seq<char>,
    product: Seq<char>,
    multi: bool,
) -> Seq<PlanShow>
    decreases kinds.len(),
{
    if kinds.len() == 0 {
        Seq::empty()
    } else {
        let p = venue_plan(venue, kinds.drop_last(), symbol, product, multi);
        if has_market(venue, kinds.last()) {
            p.push(plan_of(venue, kinds.last(), symbol, product, multi))
        } else {
            p
        }
    }
}

/// The markets of some venues.
pub open spec fn full_plan(
    venues: Seq<Venue>,
    kinds: Seq<MarketKind>,
    symbol: Seq<char>,
    product: Seq<char>,
    multi: bool,
) -> Seq<PlanShow>
    decreases venues.len(),
{
    if venues.len() == 0 {
        Seq::empty()
    } else {
        full_plan(venues.drop_last(), kinds, symbol, product, multi) + venue_plan(
            venues.last(),
            kinds,
            symbol,
            product,
            multi,
        )
    }
}

/// The rule of a market.
pub fn rule(venue: Venue, kind: MarketKind) -> (r: Rule)
    ensures
        r == rule_of(venue, kind),
{
    match (venue, kind) {
        (Venue::Okx, _) => Rule::Okx,
        (Venue::Coinbase, _) => Rule::Okx,
        (_, MarketKind::Spot) => Rule::BinanceSpot,
        (_, MarketKind::Perp) => Rule::BinanceFutures,
    }
}

fn one(venue: Venue, kind: MarketKind, symbol: &str, product: &str, multi: bool) -> (r: Planned)
    ensures
        r@ == plan_of(venue, kind, symbol@, product@, multi),
{
    let market = if venue == Venue::Coinbase {
        let s = strip_char(product, '-');
        MarketId::new(venue, kind, s.as_str())
    } else {
        MarketId::new(venue, kind, symbol)
    };
    let mut key = String::new();
    if multi {
        key.append(venue.as_str());
        key.append(".");
        assert(key@ =~= venue.label() + "."@);
    }
    key.append(kind.as_str());
    assert(key@ =~= plan_of(venue, kind, symbol@, product@, multi).key);
    Planned { market, key, rule: rule(venue, kind) }
}

/// The markets that the node runs: each kind of each venue, but for those that the venue
/// lacks.
pub fn plan(venues: &Vec<Venue>, kinds: &Vec<MarketKind>, symbol: &str, product: &str) -> (r: Vec<
    Planned,
>)
    ensures
        plans(r@) == full_plan(venues@, kinds@, symbol@, product@, venues@.len() > 1),
{
    let multi = venues.len() > 1;
    let mut r: Vec<Planned> = Vec::new();
    let mut i: usize = 0;
    assert(plans(r@) =~= Seq::<PlanShow>::empty());
    assert(venues@.take(0) =~= Seq::<Venue>::empty());
    while i < venues.len()
        invariant
            i <= venues@.len(),
            plans(r@) == full_plan(venues@.take(i as int), kinds@, symbol@, product@, multi),
        decreases venues@.len() - i,
    {
        let venue = venues[i];
        let ghost before = plans(r@);
        assert(venues@.take(i + 1).drop_last() =~= venues@.take(i as int));
        let mut j: usize = 0;
        assert(kinds@.take(0) =~= Seq::<MarketKind>::empty());
        assert(before + Seq::<PlanShow>::empty() =~= before);
        while j < kinds.len()
            invariant
                j <= kinds@.len(),
                plans(r@) == before + venue_plan(
                    venue,
                    kinds@.take(j as int),
                    symbol@,
                    product@,
                    multi,
                ),
            decreases kinds@.len() - j,
        {
            let kind = kinds[j];
            let ghost was = plans(r@);
            assert(kinds@.take(j + 1).drop_last() =~= kinds@.take(j as int));
            if !(venue == Venue::Coinbase && kind == MarketKind::Perp) {
                r.push(one(venue, kind, symbol, product, multi));
                assert(plans(r@) =~= was.push(plan_of(venue, kind, symbol@, product@, multi)));
            }
            j += 1;
            assert(plans(r@) =~= before + venue_plan(
                venue,
                kinds@.take(j as int),
                symbol@,
                product@,
                multi,
            ));
        }
        assert(kinds@.take(j as int) =~= kinds@);
        i += 1;
    }
    assert(venues@.take(i as int) =~= venues@);
    r
}

proof fn lemma_venue_plan(
    venue: Venue,
    kinds: Seq<MarketKind>,
    symbol: Seq<char>,
    product: Seq<char>,
    multi: bool,
    i: int,
)
    requires
        0 <= i < venue_plan(venue, kinds, symbol, product, multi).len(),
    ensures
        ({
            let p = venue_plan(venue, kinds, symbol, product, multi)[i];
            &&& ends(p.key, p.kind.label())
            &&& has_market(p.venue, p.kind)
            &&& p.rule == rule_of(p.venue, p.kind)
        }),
    decreases kinds.len(),
{
    let n = venue_plan(venue, kinds.drop_last(), symbol, product, multi).len();
    if i < n {
        lemma_venue_plan(venue, kinds.drop_last(), symbol, product, multi, i);
    } else {
        let p = plan_of(venue, kinds.last(), symbol, product, multi);
        assert(p.key.skip(p.key.len() - p.kind.label().len()) =~= p.kind.label());
    }
}

/// Every key of the plan ends in the kind of its market (which is how spot and perpetual
/// markets are told apart), and no venue is asked for a market it lacks.
pub proof fn law_keys_tell_the_kind(
    venues: Seq<Venue>,
    kinds: Seq<MarketKind>,
    symbol: Seq<char>,
    product: Seq<char>,
    multi: bool,
    i: int,
)
    requires
        0 <= i < full_plan(venues, kinds, symbol, product, multi).len(),
    ensures
        ({
            let p = full_plan(venues, kinds, symbol, product, multi)[i];
            &&& ends(p.key, p.kind.label())
            &&& has_market(p.venue, p.kind)
            &&& p.rule == rule_of(p.venue, p.kind)
        }),
    decreases venues.len(),
{
    let a = full_plan(venues.drop_last(), kinds, symbol, product, multi);
    if i < a.len() {
        law_keys_tell_the_kind(venues.drop_last(), kinds, symbol, product, multi, i);
    } else {
        lemma_venue_plan(venues.last(), kinds, symbol, product, multi, i - a.len());
    }
}

} // verus!

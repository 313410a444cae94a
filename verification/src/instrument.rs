//! Identity of markets and instruments, across venues.

use crate::fixed::{Px, Qty};
use vstd::prelude::*;
use vstd::string::StringExecFns;

verus! {

/// Exchange of origin.
#[derive(Debug, Clone, Copy, PartialEq, Eq, Structural, Hash, PartialOrd, Ord)]
pub enum Venue {
    /// Binance.
    Binance,
    /// Bybit.
    Bybit,
    /// OKX.
    Okx,
    /// Coinbase.
    Coinbase,
    /// Kraken.
    Kraken,
}

impl Venue {
    /// What [`Venue::as_str`] returns.
    pub open spec fn label(self) -> Seq<char> {
        match self {
            Venue::Binance => "binance"@,
            Venue::Bybit => "bybit"@,
            Venue::Okx => "okx"@,
            Venue::Coinbase => "coinbase"@,
            Venue::Kraken => "kraken"@,
        }
    }

    /// Stable label for metrics and logs.
    pub fn as_str(self) -> (r: &'static str)
        ensures
            r@ == self.label(),
    {
        match self {
            Venue::Binance => "binance",
            Venue::Bybit => "bybit",
            Venue::Okx => "okx",
            Venue::Coinbase => "coinbase",
            Venue::Kraken => "kraken",
        }
    }
}

/// Kind of market.
#[derive(Debug, Clone, Copy, PartialEq, Eq, Structural, Hash, PartialOrd, Ord)]
pub enum MarketKind {
    /// Spot.
    Spot,
    /// Linear perpetual.
    Perp,
}

impl MarketKind {
    /// What [`MarketKind::as_str`] returns.
    pub open spec fn label(self) -> Seq<char> {
        match self {
            MarketKind::Spot => "spot"@,
            MarketKind::Perp => "perp"@,
        }
    }

    /// Stable label.
    pub fn as_str(self) -> (r: &'static str)
        ensures
            r@ == self.label(),
    {
        match self {
            MarketKind::Spot => "spot",
            MarketKind::Perp => "perp",
        }
    }
}

/// Canonical identifier of a market: `binance.spot.SOLUSDT`.
#[derive(Debug, Clone, PartialEq, Eq, Hash, PartialOrd, Ord)]
pub struct MarketId {
    /// Exchange.
    pub venue: Venue,
    /// Spot or perpetual.
    pub kind: MarketKind,
    /// Symbol as the venue writes it.
    pub symbol: String,
}

impl MarketId {
    /// The market of a venue, a kind and a symbol.
    pub fn new(venue: Venue, kind: MarketKind, symbol: &str) -> (r: Self)
        ensures
            r.venue == venue,
            r.kind == kind,
            r.symbol@ == symbol@,
    {
        MarketId { venue, kind, symbol: String::from_str(symbol) }
    }

    /// The canonical text of the identifier.
    pub open spec fn text(self) -> Seq<char> {
        self.venue.label() + "."@ + self.kind.label() + "."@ + self.symbol@
    }

    /// The canonical text: venue, kind and symbol joined by points.
    pub fn to_string(&self) -> (r: String)
        ensures
            r@ == self.text(),
    {
        let mut s = String::from_str(self.venue.as_str());
        s.append(".");
        s.append(self.kind.as_str());
        s.append(".");
        s.append(self.symbol.as_str());
        s
    }
}

/// Trading rules of the instrument.
#[derive(Debug, Clone, PartialEq, Eq)]
pub struct InstrumentSpec {
    /// Market.
    pub market: MarketId,
    /// Price tick.
    pub tick: Px,
    /// Quantity step.
    pub step: Qty,
    /// Units of base per contract (1.0 where contracts are units).
    pub base_per_contract: Qty,
}

impl InstrumentSpec {
    /// Whether the price respects the tick (quality control of the feed).
    pub fn on_tick(&self, px: Px) -> (r: bool)
        ensures
            r == (self.tick.0 > 0 && px.0 as int % self.tick.0 as int == 0),
    {
        if self.tick.0 > 0 {
            match px.0.checked_rem_euclid(self.tick.0) {
                Some(m) => m == 0,
                None => false,
            }
        } else {
            false
        }
    }
}

} // verus!

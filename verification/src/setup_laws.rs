//! What is asked for and what is found: options, markets, trading rules and faults.

use crate::args::{
    count_of, is_level, kind_of, kinds_of, valued, venue_of, venues_of, Gathered, Word,
};
use crate::binance;
use crate::binance::{status_fault, RestFault};
use crate::fixed::{fixed8, SCALE};
use crate::instrument::{MarketKind, Venue};
use crate::kraken;
use crate::okx;
use crate::plan::{full_plan, plan_of, rule_of, venue_plan, Rule};
use crate::text::{ends, unsigned};
use crate::words::{pieces, trimmed, without};
use vstd::prelude::*;

verus! {

/// The filter that is found is the first of its kind.
pub proof fn law_filter_is_the_first_of_its_kind(v: Seq<binance::FilterSeen>, kind: Seq<char>)
    ensures
        binance::filter_named(v, kind) matches Some(f) ==> exists|i: int|
            0 <= i < v.len() && #[trigger] v[i] == f && f.kind == Some(kind) && forall|j: int|
                0 <= j < i ==> (#[trigger] v[j]).kind != Some(kind),
        binance::filter_named(v, kind) is None ==> forall|i: int|
            0 <= i < v.len() ==> (#[trigger] v[i]).kind != Some(kind),
    decreases v.len(),
{
    if v.len() > 0 && v[0].kind != Some(kind) {
        let r = v.skip(1);
        law_filter_is_the_first_of_its_kind(r, kind);
        assert(forall|i: int| 0 <= i < r.len() ==> r[i] == v[i + 1]);
        if binance::filter_named(r, kind) is Some {
            let f = binance::filter_named(r, kind)->0;
            let i = choose|i: int|
                0 <= i < r.len() && #[trigger] r[i] == f && f.kind == Some(kind) && forall|j: int|
                    0 <= j < i ==> (#[trigger] r[j]).kind != Some(kind);
            assert(v[i + 1] == f);
            assert forall|j: int| 0 <= j < i + 1 implies (#[trigger] v[j]).kind != Some(kind) by {
                if j > 0 {
                    assert(r[j - 1] == v[j]);
                }
            }
        } else {
            assert forall|i: int| 0 <= i < v.len() implies (#[trigger] v[i]).kind != Some(kind) by {
                if i > 0 {
                    assert(r[i - 1] == v[i]);
                }
            }
        }
    }
}

/// Of Binance: the tick is the tick size of the price filter, and the step is the step size
/// of the lot filter; without either there are no rules.
pub proof fn law_binance_rules_are_of_their_filters(v: Seq<binance::FilterSeen>)
    ensures
        binance::rules_of(v) matches Ok((tick, step)) ==> {
            &&& binance::filter_named(v, "PRICE_FILTER"@) matches Some(f) && f.tick matches Some(t)
                && fixed8(t) matches Ok(x) && x == tick
            &&& binance::filter_named(v, "LOT_SIZE"@) matches Some(f) && f.step matches Some(t)
                && fixed8(t) matches Ok(x) && x == step
        },
        (binance::filter_named(v, "PRICE_FILTER"@) matches Some(f) && f.tick matches Some(t)
            && fixed8(t) is Ok) && (binance::filter_named(v, "LOT_SIZE"@) matches Some(f)
            && f.step matches Some(t) && fixed8(t) is Ok) ==> binance::rules_of(v) is Ok,
{
}

/// The rules of a market of Binance are those of its own symbol.
pub proof fn law_binance_rules_are_of_the_symbol(v: Seq<binance::SymSeen>, name: Seq<char>)
    ensures
        binance::symbol_named(v, name) matches Some(s) ==> s.symbol == name && v.contains(s),
        binance::symbol_named(v, name) is None ==> forall|i: int|
            0 <= i < v.len() ==> (#[trigger] v[i]).symbol != name,
    decreases v.len(),
{
    if v.len() > 0 {
        if v[0].symbol == name {
            assert(v.contains(v[0]));
        } else {
            let r = v.skip(1);
            law_binance_rules_are_of_the_symbol(r, name);
            if binance::symbol_named(r, name) is Some {
                let s = binance::symbol_named(r, name)->0;
                let i = choose|i: int| 0 <= i < r.len() && r[i] == s;
                assert(v[i + 1] == s);
            }
            assert forall|i: int|
                binance::symbol_named(v, name) is None && 0 <= i < v.len() implies (
            #[trigger] v[i]).symbol != name by {
                if i > 0 {
                    assert(r[i - 1] == v[i]);
                }
            }
        }
    }
}

/// The exchange information of Binance gives a symbol its own rules.
pub proof fn law_binance_information_has_the_rules(text: Seq<char>, symbol: Seq<char>)
    ensures
        binance::info_of(text) is Err ==> binance::instrument_rules(text, symbol) is Err,
        binance::info_of(text) matches Ok(info) ==> {
            &&& binance::symbol_named(info.symbols, symbol) is None ==> binance::instrument_rules(
                text,
                symbol,
            ) is Err
            &&& binance::symbol_named(info.symbols, symbol) matches Some(s) ==> {
                let f = binance::filters_of(s.filters);
                &&& binance::instrument_rules(text, symbol) == binance::rules_of(f)
                &&& f.len() == s.filters.len()
                &&& forall|i: int| 0 <= i < f.len() ==> #[trigger] f[i] == binance::filter_of(
                    s.filters[i],
                )
            }
        },
{
}

/// The fields of a filter of Binance, each under its own name.
pub proof fn law_binance_filter_fields(text: Seq<char>)
    ensures
        crate::json::json_object(text) matches Ok(f) ==> {
            let w = binance::filter_of(text);
            &&& w.kind == (match crate::json::string_in(f, "filterType"@) {
                Ok(t) => Some(t),
                Err(_) => None,
            })
            &&& w.tick == (match crate::json::string_in(f, "tickSize"@) {
                Ok(t) => Some(t),
                Err(_) => None,
            })
            &&& w.step == (match crate::json::string_in(f, "stepSize"@) {
                Ok(t) => Some(t),
                Err(_) => None,
            })
        },
{
}

/// Of OKX: the tick is the tick size, a contract is worth what it says (one unit where it
/// says nothing), and the step is the lot in contracts, rounded down.
pub proof fn law_okx_rules_are_told(r: okx::ReplySeen)
    ensures
        okx::rules_of(r) matches Ok(x) ==> {
            let i = r.data[0];
            &&& r.code == "0"@ && r.data.len() > 0
            &&& fixed8(i.tick_sz) matches Ok(t) && x.tick.0 == t
            &&& i.ct_val.len() == 0 ==> x.contract.0 == SCALE
            &&& i.ct_val.len() > 0 ==> (fixed8(i.ct_val) matches Ok(c) && x.contract.0 == c)
            &&& fixed8(i.lot_sz) matches Ok(l) && x.step.0 * SCALE <= l * x.contract.0 < (x.step.0
                + 1) * SCALE
        },
        r.code != "0"@ || r.data.len() == 0 ==> okx::rules_of(r) is Err,
{
    if okx::rules_of(r) is Ok {
        let i = r.data[0];
        crate::fixed::lemma_fixed8_nonneg(i.lot_sz);
        crate::fixed::lemma_fixed8_nonneg(i.ct_val);
        let l = fixed8(i.lot_sz)->Ok_0 as int;
        let c = (okx::rules_of(r)->Ok_0).contract.0 as int;
        let p = l * c;
        let d = SCALE as int;
        assert(p >= 0) by (nonlinear_arith)
            requires
                l >= 0,
                c >= 0,
                p == l * c,
        ;
        assert(d * (p / d) <= p < d * (p / d) + d && p / d >= 0) by (nonlinear_arith)
            requires
                d > 0,
                p >= 0,
        ;
    }
}

/// A symbol is its base and its quote, which is one of three.
pub proof fn law_symbol_is_base_and_quote(t: Seq<char>)
    ensures
        okx::symbol_parts(t) matches Some((base, quote)) ==> {
            &&& base + quote == t && base.len() > 0
            &&& quote == "USDT"@ || quote == "USDC"@ || quote == "USD"@
        },
        okx::symbol_parts(t) is None ==> {
            &&& !ends(t, "USDT"@) || t.len() == 4
            &&& !ends(t, "USDC"@) || t.len() == 4
            &&& !ends(t, "USD"@) || t.len() == 3
        },
{
    reveal_strlit("USDT");
    reveal_strlit("USDC");
    reveal_strlit("USD");
    if okx::symbol_parts(t) is Some {
        let (base, quote) = okx::symbol_parts(t)->0;
        assert(base + quote == t);
    }
    if ends(t, "USDT"@) {
        assert(t.skip(t.len() - 4)[3] == 'T');
        assert(t.last() == 'T');
    }
    if ends(t, "USDC"@) {
        assert(t.skip(t.len() - 4)[3] == 'C');
        assert(t.last() == 'C');
    }
    if ends(t, "USD"@) {
        assert(t.skip(t.len() - 3)[2] == 'D');
        assert(t.last() == 'D');
    }
}

/// The precision of a pair of Kraken is its own: decimals of the price, then of the lot.
pub proof fn law_kraken_precision_is_of_the_pair(v: Seq<kraken::PairSeen>, name: Seq<char>)
    ensures
        kraken::precision_in(v, name) matches Ok((p, q)) ==> exists|i: int|
            0 <= i < v.len() && (#[trigger] v[i]).wsname == name && v[i].pair_decimals == p
                && v[i].lot_decimals == q,
        kraken::precision_in(v, name) is Err <==> forall|i: int|
            0 <= i < v.len() ==> (#[trigger] v[i]).wsname != name,
    decreases v.len(),
{
    if v.len() > 0 {
        let r = v.skip(1);
        law_kraken_precision_is_of_the_pair(r, name);
        assert(forall|i: int| 0 <= i < r.len() ==> r[i] == v[i + 1]);
        if v[0].wsname != name {
            assert(kraken::pair_named(v, name) == kraken::pair_named(r, name));
            if kraken::precision_in(r, name) is Ok {
                let (p, q) = kraken::precision_in(r, name)->Ok_0;
                let i = choose|i: int|
                    0 <= i < r.len() && (#[trigger] r[i]).wsname == name && r[i].pair_decimals
                        == p && r[i].lot_decimals == q;
                assert(v[i + 1].wsname == name);
            } else {
                assert forall|i: int| 0 <= i < v.len() implies (#[trigger] v[i]).wsname != name by {
                    if i > 0 {
                        assert(r[i - 1] == v[i]);
                    }
                }
            }
        } else {
            assert(v[0].wsname == name);
        }
    }
}

/// A status of HTTP is told for what it is: too many requests, banned or out of reach by law;
/// any other by its number. The wait is the server's, where it gives one in seconds.
pub proof fn law_status_is_told(code: u16, retry_after: Option<Seq<char>>, host: Seq<char>)
    ensures
        ({
            let f = status_fault(code, retry_after, host);
            let wait = if retry_after is Some {
                unsigned(retry_after->0)
            } else {
                None
            };
            &&& code == 429 <==> f is RateLimited
            &&& code == 418 <==> f is Banned
            &&& code == 451 <==> f is Restricted
            &&& f matches RestFault::RateLimited(w) ==> w == wait
            &&& f matches RestFault::Banned(w) ==> w == wait
            &&& f matches RestFault::Restricted(h) ==> h == host
            &&& code != 429 && code != 418 && code != 451 ==> f == RestFault::Http(code)
        }),
{
}

/// A refusal by rate waits what the server says, or a minute; a ban the same, or five
/// minutes; anything else its own backoff. Another host helps only where the refusal is the
/// host's.
pub proof fn law_fault_waits_its_time(f: RestFault, backoff_ms: u64, s: u64)
    ensures
        RestFault::RateLimited(Some(s)).wait_ms(backoff_ms) == s * 1000,
        RestFault::Banned(Some(s)).wait_ms(backoff_ms) == s * 1000,
        RestFault::RateLimited(None).wait_ms(backoff_ms) == 60_000,
        RestFault::Banned(None).wait_ms(backoff_ms) == 300_000,
        !(f is RateLimited) && !(f is Banned) ==> f.wait_ms(backoff_ms) == backoff_ms,
        f is RateLimited || f is Banned ==> !f.elsewhere(),
        f is Restricted || f is Transport || f is Http ==> f.elsewhere(),
{
}

/// The venues of a list are those that its words name, in order; one that is none refuses it.
pub proof fn law_venues_are_those_named(p: Seq<Seq<char>>)
    ensures
        venues_of(p) matches Ok(v) ==> v.len() == p.len() && forall|i: int|
            0 <= i < v.len() ==> Some(#[trigger] v[i]) == venue_of(p[i]),
        venues_of(p) is Ok <==> forall|i: int| 0 <= i < p.len() ==> venue_of(#[trigger] p[i]) is Some,
    decreases p.len(),
{
    if p.len() > 0 {
        let f = p.drop_last();
        law_venues_are_those_named(f);
        assert(forall|i: int| 0 <= i < f.len() ==> f[i] == p[i]);
        assert(p[p.len() - 1] == p.last());
    }
}

/// The kinds of a list are those that its words name, in order; one that is none refuses it.
pub proof fn law_kinds_are_those_named(p: Seq<Seq<char>>)
    ensures
        kinds_of(p) matches Ok(v) ==> v.len() == p.len() && forall|i: int|
            0 <= i < v.len() ==> Some(#[trigger] v[i]) == kind_of(p[i]),
        kinds_of(p) is Ok <==> forall|i: int| 0 <= i < p.len() ==> kind_of(#[trigger] p[i]) is Some,
    decreases p.len(),
{
    if p.len() > 0 {
        let f = p.drop_last();
        law_kinds_are_those_named(f);
        assert(forall|i: int| 0 <= i < f.len() ==> f[i] == p[i]);
        assert(p[p.len() - 1] == p.last());
    }
}

/// A venue and a kind are called by their own name.
pub proof fn law_words_name_venues_and_kinds(t: Seq<char>)
    ensures
        venue_of(t) == Some(Venue::Binance) <==> trimmed(t) == "binance"@,
        venue_of(t) == Some(Venue::Okx) <==> trimmed(t) == "okx"@,
        venue_of(t) == Some(Venue::Coinbase) <==> trimmed(t) == "coinbase"@,
        kind_of(t) == Some(MarketKind::Spot) <==> trimmed(t) == "spot"@,
        kind_of(t) == Some(MarketKind::Perp) <==> trimmed(t) == "perp"@,
{
    reveal_strlit("binance");
    reveal_strlit("okx");
    reveal_strlit("coinbase");
    reveal_strlit("spot");
    reveal_strlit("perp");
    assert("binance"@.len() == 7 && "okx"@.len() == 3 && "coinbase"@.len() == 8);
    assert("spot"@[0] == 's' && "perp"@[0] == 'p');
}

proof fn lemma_options()
    ensures
        "--symbol"@.len() == 8 && "--venues"@.len() == 8 && "--listen"@.len() == 8,
        "--symbol"@[2] == 's' && "--venues"@[2] == 'v' && "--listen"@[2] == 'l',
        "--lines"@.len() == 7 && "--log"@.len() == 5,
        "--markets"@.len() == 9 && "--ca-file"@.len() == 9,
        "--markets"@[2] == 'm' && "--ca-file"@[2] == 'c',
        "--sim-seed"@.len() == 10,
        "--io-threads"@.len() == 12 && "--chaos-drop"@.len() == 12,
        "--io-threads"@[2] == 'i' && "--chaos-drop"@[2] == 'c',
        "--coinbase-product"@.len() == 18,
        "--chaos-jitter-ms"@.len() == 17,
        "--chaos-outage-s"@.len() == 16,
        "--chaos-snapshot-fail"@.len() == 21,
{
    reveal_strlit("--symbol");
    reveal_strlit("--venues");
    reveal_strlit("--listen");
    reveal_strlit("--lines");
    reveal_strlit("--log");
    reveal_strlit("--markets");
    reveal_strlit("--ca-file");
    reveal_strlit("--sim-seed");
    reveal_strlit("--io-threads");
    reveal_strlit("--chaos-drop");
    reveal_strlit("--coinbase-product");
    reveal_strlit("--chaos-jitter-ms");
    reveal_strlit("--chaos-outage-s");
    reveal_strlit("--chaos-snapshot-fail");
}

/// Each option of a run sets what it names, and nothing else.
pub proof fn law_options_set_what_they_name(g: Gathered, v: Word)
    ensures
        valued(g, "--venues"@, v) matches Ok(h) ==> venues_of(pieces(v.text@, ',')) matches Ok(x)
            && h.args.venues == x && h.args.markets == g.args.markets && h.args.symbol
            == g.args.symbol && h.sim == g.sim,
        valued(g, "--markets"@, v) matches Ok(h) ==> kinds_of(pieces(v.text@, ',')) matches Ok(x)
            && h.args.markets == x && h.args.venues == g.args.venues && h.args.symbol
            == g.args.symbol && h.sim == g.sim,
        valued(g, "--lines"@, v) is Ok <==> count_of(v.text@) is Some && 1 <= count_of(v.text@)->0
            <= 4,
        valued(g, "--lines"@, v) matches Ok(h) ==> Some(h.args.lines) == count_of(v.text@)
            && h.args.io_threads == g.args.io_threads,
        valued(g, "--io-threads"@, v) is Ok <==> count_of(v.text@) is Some,
        valued(g, "--io-threads"@, v) matches Ok(h) ==> Some(h.args.io_threads) == count_of(v.text@)
            && h.args.lines == g.args.lines,
        valued(g, "--listen"@, v) is Ok <==> v.is_addr,
        valued(g, "--listen"@, v) matches Ok(h) ==> h.args.listen == v.text@ && h.args.log
            == g.args.log,
        valued(g, "--log"@, v) is Ok <==> is_level(v.text@),
        valued(g, "--log"@, v) matches Ok(h) ==> h.args.log == v.text@ && h.args.listen
            == g.args.listen,
        valued(g, "--ca-file"@, v) matches Ok(h) && h.args.ca_file == Some(v.text@),
        valued(g, "--sim-seed"@, v) is Ok <==> unsigned(v.text@) is Some,
        valued(g, "--sim-seed"@, v) matches Ok(h) ==> Some(h.sim.seed) == unsigned(v.text@)
            && h.args == g.args,
        valued(g, "--chaos-jitter-ms"@, v) is Ok <==> unsigned(v.text@) is Some,
        valued(g, "--chaos-jitter-ms"@, v) matches Ok(h) ==> Some(h.sim.jitter_ms) == unsigned(
            v.text@,
        ) && h.sim.seed == g.sim.seed && h.args == g.args,
        valued(g, "--chaos-outage-s"@, v) is Ok <==> unsigned(v.text@) is Some,
        valued(g, "--chaos-outage-s"@, v) matches Ok(h) ==> Some(h.sim.outage_every_s) == unsigned(
            v.text@,
        ) && h.sim.jitter_ms == g.sim.jitter_ms && h.args == g.args,
        valued(g, "--chaos-drop"@, v) is Ok <==> v.chance is Some,
        valued(g, "--chaos-drop"@, v) matches Ok(h) ==> Some(h.sim.drop) == v.chance
            && h.sim.snapshot_fail == g.sim.snapshot_fail && h.args == g.args,
        valued(g, "--chaos-snapshot-fail"@, v) is Ok <==> v.chance is Some,
        valued(g, "--chaos-snapshot-fail"@, v) matches Ok(h) ==> Some(h.sim.snapshot_fail)
            == v.chance && h.sim.drop == g.sim.drop && h.args == g.args,
{
    lemma_options();
}

/// The plan has every market asked for that its venue has, under the symbol of the venue.
pub proof fn law_plan_has_every_market(
    venues: Seq<Venue>,
    kinds: Seq<MarketKind>,
    symbol: Seq<char>,
    product: Seq<char>,
    multi: bool,
    a: int,
    b: int,
)
    requires
        0 <= a < venues.len(),
        0 <= b < kinds.len(),
        venues[a] != Venue::Coinbase || kinds[b] == MarketKind::Spot,
    ensures
        exists|i: int|
            0 <= i < full_plan(venues, kinds, symbol, product, multi).len() && ({
                let p = #[trigger] full_plan(venues, kinds, symbol, product, multi)[i];
                &&& p.venue == venues[a] && p.kind == kinds[b]
                &&& p.symbol == (if venues[a] == Venue::Coinbase {
                    without(product, '-')
                } else {
                    symbol
                })
                &&& p.key == (if multi {
                    venues[a].label() + "."@ + kinds[b].label()
                } else {
                    kinds[b].label()
                })
            }),
    decreases venues.len(),
{
    let f = venues.drop_last();
    let all = full_plan(venues, kinds, symbol, product, multi);
    let before = full_plan(f, kinds, symbol, product, multi);
    if a < f.len() {
        law_plan_has_every_market(f, kinds, symbol, product, multi, a, b);
        let i = choose|i: int|
            0 <= i < before.len() && ({
                let p = #[trigger] before[i];
                &&& p.venue == f[a] && p.kind == kinds[b]
                &&& p.symbol == (if f[a] == Venue::Coinbase {
                    without(product, '-')
                } else {
                    symbol
                })
                &&& p.key == (if multi {
                    f[a].label() + "."@ + kinds[b].label()
                } else {
                    kinds[b].label()
                })
            });
        assert(all[i] == before[i]);
    } else {
        let i = lemma_venue_has(venues[a], kinds, symbol, product, multi, b);
        assert(all[before.len() + i] == venue_plan(venues[a], kinds, symbol, product, multi)[i]);
    }
}

proof fn lemma_venue_has(
    venue: Venue,
    kinds: Seq<MarketKind>,
    symbol: Seq<char>,
    product: Seq<char>,
    multi: bool,
    b: int,
) -> (i: int)
    requires
        0 <= b < kinds.len(),
        venue != Venue::Coinbase || kinds[b] == MarketKind::Spot,
    ensures
        0 <= i < venue_plan(venue, kinds, symbol, product, multi).len(),
        venue_plan(venue, kinds, symbol, product, multi)[i] == plan_of(
            venue,
            kinds[b],
            symbol,
            product,
            multi,
        ),
    decreases kinds.len(),
{
    let f = kinds.drop_last();
    if b < f.len() {
        lemma_venue_has(venue, f, symbol, product, multi, b)
    } else {
        venue_plan(venue, f, symbol, product, multi).len() as int
    }
}

/// A market of OKX or Coinbase is linked by the number before; one of the others by its
/// kind.
pub proof fn law_markets_have_their_rule(venue: Venue, kind: MarketKind)
    ensures
        rule_of(venue, kind) == Rule::Okx <==> venue == Venue::Okx || venue == Venue::Coinbase,
        rule_of(Venue::Binance, MarketKind::Spot) == Rule::BinanceSpot,
        rule_of(Venue::Binance, MarketKind::Perp) == Rule::BinanceFutures,
{
}

} // verus!

//! Arguments of the node.

use crate::chaos::SimConfig;
use crate::instrument::{MarketKind, Venue};
use crate::sync::MAX_LINES;
use crate::text::{parse_u64, same_text, unsigned};
use crate::words::{pieces, split_on, to_uppercase, trim, trimmed, uppercase};
use vstd::prelude::*;
use vstd::string::StringExecFns;

verus! {

/// An argument, with what the driver reads in it.
pub struct Word {
    /// The argument.
    pub text: String,
    /// It is the address of a socket.
    pub is_addr: bool,
    /// It is a probability: what a draw must stay under.
    pub chance: Option<Option<u64>>,
}

/// The options of the node.
pub struct Args {
    /// Symbol.
    pub symbol: String,
    /// Exchanges.
    pub venues: Vec<Venue>,
    /// Product of Coinbase.
    pub coinbase_product: String,
    /// Kinds of market.
    pub markets: Vec<MarketKind>,
    /// Redundant lines per stream.
    pub lines: usize,
    /// Address of the API.
    pub listen: String,
    /// Threads for I/O.
    pub io_threads: usize,
    /// Each engine has a core of its own.
    pub pin: bool,
    /// Level of the log.
    pub log: String,
    /// File of additional certificates, where it was given.
    pub ca_file: Option<String>,
    /// The simulation, instead of the exchanges.
    pub sim: Option<SimConfig>,
}

/// What [`Args`] holds.
#[verifier::ext_equal]
pub struct ArgsShow {
    /// Symbol.
    pub symbol: Seq<char>,
    /// Exchanges.
    pub venues: Seq<Venue>,
    /// Product of Coinbase.
    pub coinbase_product: Seq<char>,
    /// Kinds of market.
    pub markets: Seq<MarketKind>,
    /// Redundant lines per stream.
    pub lines: usize,
    /// Address of the API.
    pub listen: Seq<char>,
    /// Threads for I/O.
    pub io_threads: usize,
    /// Each engine has a core of its own.
    pub pin: bool,
    /// Level of the log.
    pub log: Seq<char>,
    /// File of additional certificates.
    pub ca_file: Option<Seq<char>>,
    /// The simulation.
    pub sim: Option<SimConfig>,
}

/// A text, where there is one.
pub open spec fn text_of(t: Option<String>) -> Option<Seq<char>> {
    match t {
        Some(s) => Some(s@),
        None => None,
    }
}

impl View for Args {
    type V = ArgsShow;

    open spec fn view(&self) -> ArgsShow {
        ArgsShow {
            symbol: self.symbol@,
            venues: self.venues@,
            coinbase_product: self.coinbase_product@,
            markets: self.markets@,
            lines: self.lines,
            listen: self.listen@,
            io_threads: self.io_threads,
            pin: self.pin,
            log: self.log@,
            ca_file: text_of(self.ca_file),
            sim: self.sim,
        }
    }
}

/// What the arguments ask for.
pub enum Parsed {
    /// To run.
    Run(Args),
    /// The help.
    Help,
    /// Nothing that can be done: why.
    Fail(String),
}

/// What [`Parsed`] holds.
pub enum ParsedShow {
    /// To run.
    Run(ArgsShow),
    /// The help.
    Help,
    /// Why not.
    Fail(Seq<char>),
}

impl View for Parsed {
    type V = ParsedShow;

    open spec fn view(&self) -> ParsedShow {
        match self {
            Parsed::Run(a) => ParsedShow::Run(a@),
            Parsed::Help => ParsedShow::Help,
            Parsed::Fail(e) => ParsedShow::Fail(e@),
        }
    }
}

/// The options gathered so far: those of the simulation apart, and whether it is on.
#[verifier::ext_equal]
pub struct Gathered {
    /// The options.
    pub args: ArgsShow,
    /// The parameters of the simulation.
    pub sim: SimConfig,
    /// The simulation was asked for.
    pub sim_on: bool,
}

/// The usual options.
pub open spec fn usual() -> Gathered {
    Gathered {
        args: ArgsShow {
            symbol: "SOLUSDT"@,
            venues: seq![Venue::Binance],
            coinbase_product: "SOL-USD"@,
            markets: seq![MarketKind::Spot, MarketKind::Perp],
            lines: 2,
            listen: "127.0.0.1:9100"@,
            io_threads: 1,
            pin: false,
            log: "info"@,
            ca_file: None,
            sim: None,
        },
        sim: SimConfig {
            seed: 0x5eed,
            drop: None,
            jitter_ms: 20,
            outage_every_s: 0,
            snapshot_fail: None,
        },
        sim_on: false,
    }
}

/// The venue of a word of the list of venues.
pub open spec fn venue_of(t: Seq<char>) -> Option<Venue> {
    if trimmed(t) == "binance"@ {
        Some(Venue::Binance)
    } else if trimmed(t) == "okx"@ {
        Some(Venue::Okx)
    } else if trimmed(t) == "coinbase"@ {
        Some(Venue::Coinbase)
    } else {
        None
    }
}

/// The kind of a word of the list of markets.
pub open spec fn kind_of(t: Seq<char>) -> Option<MarketKind> {
    if trimmed(t) == "spot"@ {
        Some(MarketKind::Spot)
    } else if trimmed(t) == "perp"@ {
        Some(MarketKind::Perp)
    } else {
        None
    }
}

/// The venues of some words; the first that is none stops it.
pub open spec fn venues_of(p: Seq<Seq<char>>) -> Result<Seq<Venue>, Seq<char>>
    decreases p.len(),
{
    if p.len() == 0 {
        Ok(Seq::empty())
    } else {
        match venues_of(p.drop_last()) {
            Err(e) => Err(e),
            Ok(v) => match venue_of(p.last()) {
                Some(x) => Ok(v.push(x)),
                None => Err(
                    "venue no soportado aún: "@ + trimmed(p.last())
                        + " (binance, okx, coinbase)"@,
                ),
            },
        }
    }
}

/// The kinds of some words; the first that is none stops it.
pub open spec fn kinds_of(p: Seq<Seq<char>>) -> Result<Seq<MarketKind>, Seq<char>>
    decreases p.len(),
{
    if p.len() == 0 {
        Ok(Seq::empty())
    } else {
        match kinds_of(p.drop_last()) {
            Err(e) => Err(e),
            Ok(v) => match kind_of(p.last()) {
                Some(x) => Ok(v.push(x)),
                None => Err("mercado desconocido: "@ + trimmed(p.last())),
            },
        }
    }
}

/// A count that an argument writes.
pub open spec fn count_of(t: Seq<char>) -> Option<usize> {
    match unsigned(t) {
        Some(n) => if n <= usize::MAX {
            Some(n as usize)
        } else {
            None
        },
        None => None,
    }
}

/// A letter of ASCII in lower case; another character as it is.
pub open spec fn ascii_lower(c: char) -> char {
    if 'A' <= c <= 'Z' {
        (c as u32 + 32) as char
    } else {
        c
    }
}

/// `t` in lower case of ASCII is `word`.
pub open spec fn spells(t: Seq<char>, word: Seq<char>) -> bool {
    t.len() == word.len() && forall|i: int| 0 <= i < t.len() ==> ascii_lower(#[trigger] t[i])
        == word[i]
}

/// A level of the log: its name in any case, or its number, from 1 to 5.
pub open spec fn is_level(t: Seq<char>) -> bool {
    ||| spells(t, "error"@)
    ||| spells(t, "warn"@)
    ||| spells(t, "info"@)
    ||| spells(t, "debug"@)
    ||| spells(t, "trace"@)
    ||| (unsigned(t) matches Some(n) && 1 <= n <= 5)
}

/// Whether an option takes a value.
pub open spec fn takes_value(k: Seq<char>) -> bool {
    k == "--symbol"@ || k == "--coinbase-product"@ || k == "--venues"@ || k == "--markets"@ || k
        == "--lines"@ || k == "--listen"@ || k == "--io-threads"@ || k == "--ca-file"@ || k
        == "--log"@ || k == "--sim-seed"@ || k == "--chaos-drop"@ || k == "--chaos-jitter-ms"@
        || k == "--chaos-outage-s"@ || k == "--chaos-snapshot-fail"@
}

/// The options after an option with a value, or why the value does not serve.
pub open spec fn valued(g: Gathered, k: Seq<char>, v: Word) -> Result<Gathered, Seq<char>> {
    let t = v.text@;
    if k == "--symbol"@ {
        Ok(Gathered { args: ArgsShow { symbol: uppercase(t), ..g.args }, ..g })
    } else if k == "--coinbase-product"@ {
        Ok(Gathered { args: ArgsShow { coinbase_product: uppercase(t), ..g.args }, ..g })
    } else if k == "--venues"@ {
        match venues_of(pieces(t, ',')) {
            Ok(venues) => Ok(Gathered { args: ArgsShow { venues, ..g.args }, ..g }),
            Err(e) => Err(e),
        }
    } else if k == "--markets"@ {
        match kinds_of(pieces(t, ',')) {
            Ok(markets) => Ok(Gathered { args: ArgsShow { markets, ..g.args }, ..g }),
            Err(e) => Err(e),
        }
    } else if k == "--lines"@ {
        match count_of(t) {
            Some(lines) => if 1 <= lines <= MAX_LINES {
                Ok(Gathered { args: ArgsShow { lines, ..g.args }, ..g })
            } else {
                Err("--lines debe estar en 1..=4"@)
            },
            None => Err("--lines inválido"@),
        }
    } else if k == "--listen"@ {
        if v.is_addr {
            Ok(Gathered { args: ArgsShow { listen: t, ..g.args }, ..g })
        } else {
            Err("--listen inválido"@)
        }
    } else if k == "--io-threads"@ {
        match count_of(t) {
            Some(io_threads) => Ok(Gathered { args: ArgsShow { io_threads, ..g.args }, ..g }),
            None => Err("--io-threads inválido"@),
        }
    } else if k == "--ca-file"@ {
        Ok(Gathered { args: ArgsShow { ca_file: Some(t), ..g.args }, ..g })
    } else if k == "--log"@ {
        if is_level(t) {
            Ok(Gathered { args: ArgsShow { log: t, ..g.args }, ..g })
        } else {
            Err("--log inválido"@)
        }
    } else if k == "--sim-seed"@ {
        match unsigned(t) {
            Some(seed) => Ok(Gathered { sim: SimConfig { seed, ..g.sim }, ..g }),
            None => Err("--sim-seed inválido"@),
        }
    } else if k == "--chaos-drop"@ {
        match v.chance {
            Some(drop) => Ok(Gathered { sim: SimConfig { drop, ..g.sim }, ..g }),
            None => Err(no_chance(t)),
        }
    } else if k == "--chaos-jitter-ms"@ {
        match unsigned(t) {
            Some(jitter_ms) => Ok(Gathered { sim: SimConfig { jitter_ms, ..g.sim }, ..g }),
            None => Err("--chaos-jitter-ms inválido"@),
        }
    } else if k == "--chaos-outage-s"@ {
        match unsigned(t) {
            Some(outage_every_s) => Ok(
                Gathered { sim: SimConfig { outage_every_s, ..g.sim }, ..g },
            ),
            None => Err("--chaos-outage-s inválido"@),
        }
    } else {
        match v.chance {
            Some(snapshot_fail) => Ok(Gathered { sim: SimConfig { snapshot_fail, ..g.sim }, ..g }),
            None => Err(no_chance(t)),
        }
    }
}

/// What is said of a text that is no probability.
pub open spec fn no_chance(t: Seq<char>) -> Seq<char> {
    "probabilidad inválida: "@ + t + " (0..1)"@
}

/// What the arguments from the `i`-th on ask for, given the options gathered so far. The
/// first that does not serve stops it.
pub open spec fn parsed_from(words: Seq<Word>, i: int, g: Gathered) -> ParsedShow
    decreases words.len() - i,
{
    if i < 0 || i >= words.len() {
        ParsedShow::Run(
            ArgsShow {
                venues: if g.sim_on {
                    seq![Venue::Binance]
                } else {
                    g.args.venues
                },
                sim: if g.sim_on {
                    Some(g.sim)
                } else {
                    None
                },
                ..g.args
            },
        )
    } else {
        let k = words[i].text@;
        if k == "--pin"@ {
            parsed_from(words, i + 1, Gathered { args: ArgsShow { pin: true, ..g.args }, ..g })
        } else if k == "--sim"@ {
            parsed_from(words, i + 1, Gathered { sim_on: true, ..g })
        } else if k == "-h"@ || k == "--help"@ {
            ParsedShow::Help
        } else if !takes_value(k) {
            ParsedShow::Fail("argumento desconocido: "@ + k)
        } else if i + 1 >= words.len() {
            ParsedShow::Fail("falta valor para "@ + k)
        } else {
            match valued(g, k, words[i + 1]) {
                Ok(n) => parsed_from(words, i + 2, n),
                Err(e) => ParsedShow::Fail(e),
            }
        }
    }
}

/// The options being gathered.
struct Bag {
    args: Args,
    sim: SimConfig,
    sim_on: bool,
}

impl Bag {
    spec fn seen(&self) -> Gathered {
        Gathered { args: self.args@, sim: self.sim, sim_on: self.sim_on }
    }

    fn usual() -> (r: Bag)
        ensures
            r.seen() == usual(),
    {
        let mut venues: Vec<Venue> = Vec::new();
        venues.push(Venue::Binance);
        let mut markets: Vec<MarketKind> = Vec::new();
        markets.push(MarketKind::Spot);
        markets.push(MarketKind::Perp);
        let r = Bag {
            args: Args {
                symbol: String::from_str("SOLUSDT"),
                venues,
                coinbase_product: String::from_str("SOL-USD"),
                markets,
                lines: 2,
                listen: String::from_str("127.0.0.1:9100"),
                io_threads: 1,
                pin: false,
                log: String::from_str("info"),
                ca_file: None,
                sim: None,
            },
            sim: SimConfig::default(),
            sim_on: false,
        };
        assert(r.seen() =~= usual());
        r
    }

    /// Takes an option with its value.
    fn take(&mut self, k: &str, v: &Word) -> (r: Result<(), String>)
        ensures
            match r {
                Ok(_) => valued(old(self).seen(), k@, *v) == Ok::<Gathered, Seq<char>>(
                    final(self).seen(),
                ),
                Err(e) => valued(old(self).seen(), k@, *v) == Err::<Gathered, Seq<char>>(e@),
            },
    {
        let ghost g0 = self.seen();
        let t = v.text.as_str();
        if same_text(k, "--symbol") {
            self.args.symbol = to_uppercase(t);
        } else if same_text(k, "--coinbase-product") {
            self.args.coinbase_product = to_uppercase(t);
        } else if same_text(k, "--venues") {
            match read_venues(t) {
                Ok(venues) => {
                    self.args.venues = venues;
                },
                Err(e) => {
                    return Err(e);
                },
            }
        } else if same_text(k, "--markets") {
            match read_kinds(t) {
                Ok(markets) => {
                    self.args.markets = markets;
                },
                Err(e) => {
                    return Err(e);
                },
            }
        } else if same_text(k, "--lines") {
            match read_count(t) {
                Some(lines) => {
                    if !(1 <= lines && lines <= MAX_LINES) {
                        return Err(String::from_str("--lines debe estar en 1..=4"));
                    }
                    self.args.lines = lines;
                },
                None => {
                    return Err(String::from_str("--lines inválido"));
                },
            }
        } else if same_text(k, "--listen") {
            if !v.is_addr {
                return Err(String::from_str("--listen inválido"));
            }
            self.args.listen = String::from_str(t);
        } else if same_text(k, "--io-threads") {
            match read_count(t) {
                Some(n) => {
                    self.args.io_threads = n;
                },
                None => {
                    return Err(String::from_str("--io-threads inválido"));
                },
            }
        } else if same_text(k, "--ca-file") {
            self.args.ca_file = Some(String::from_str(t));
        } else if same_text(k, "--log") {
            if !reads_level(t) {
                return Err(String::from_str("--log inválido"));
            }
            self.args.log = String::from_str(t);
        } else if same_text(k, "--sim-seed") {
            match parse_u64(t) {
                Some(n) => {
                    self.sim.seed = n;
                },
                None => {
                    return Err(String::from_str("--sim-seed inválido"));
                },
            }
        } else if same_text(k, "--chaos-drop") {
            match v.chance {
                Some(p) => {
                    self.sim.drop = p;
                },
                None => {
                    return Err(say_no_chance(t));
                },
            }
        } else if same_text(k, "--chaos-jitter-ms") {
            match parse_u64(t) {
                Some(n) => {
                    self.sim.jitter_ms = n;
                },
                None => {
                    return Err(String::from_str("--chaos-jitter-ms inválido"));
                },
            }
        } else if same_text(k, "--chaos-outage-s") {
            match parse_u64(t) {
                Some(n) => {
                    self.sim.outage_every_s = n;
                },
                None => {
                    return Err(String::from_str("--chaos-outage-s inválido"));
                },
            }
        } else {
            match v.chance {
                Some(p) => {
                    self.sim.snapshot_fail = p;
                },
                None => {
                    return Err(say_no_chance(t));
                },
            }
        }
        assert(self.seen() =~= valued(g0, k@, *v)->Ok_0);
        Ok(())
    }
}

fn say_no_chance(t: &str) -> (r: String)
    ensures
        r@ == no_chance(t@),
{
    let mut s = String::from_str("probabilidad inválida: ");
    s.append(t);
    s.append(" (0..1)");
    s
}

fn read_count(t: &str) -> (r: Option<usize>)
    ensures
        r == count_of(t@),
{
    match parse_u64(t) {
        Some(n) => if n <= usize::MAX as u64 {
            Some(n as usize)
        } else {
            None
        },
        None => None,
    }
}

/// `tracing::Level::from_str`: it reads the name of a level, whatever the case of its
/// letters, or a number from 1 to 5 as `usize` reads it, and refuses all else.
#[verifier::external_body]
fn reads_level(t: &str) -> (r: bool)
    ensures
        r == is_level(t@),
{
    t.parse::<tracing::Level>().is_ok()
}

/// The venues of a list.
fn read_venues(t: &str) -> (r: Result<Vec<Venue>, String>)
    ensures
        match r {
            Ok(v) => venues_of(pieces(t@, ',')) == Ok::<Seq<Venue>, Seq<char>>(v@),
            Err(e) => venues_of(pieces(t@, ',')) == Err::<Seq<Venue>, Seq<char>>(e@),
        },
{
    let p = split_on(t, ',');
    let ghost ps = pieces(t@, ',');
    let mut v: Vec<Venue> = Vec::new();
    let mut i: usize = 0;
    assert(ps.take(0) =~= Seq::<Seq<char>>::empty());
    while i < p.len()
        invariant
            i <= p@.len(),
            ps == p.deep_view(),
            ps == pieces(t@, ','),
            ps.len() == p@.len(),
            venues_of(ps.take(i as int)) == Ok::<Seq<Venue>, Seq<char>>(v@),
        decreases p@.len() - i,
    {
        assert(ps[i as int] == p@[i as int]@);
        assert(ps.take(i + 1).drop_last() =~= ps.take(i as int));
        let w = trim(p[i].as_str());
        let x = if same_text(w.as_str(), "binance") {
            Venue::Binance
        } else if same_text(w.as_str(), "okx") {
            Venue::Okx
        } else if same_text(w.as_str(), "coinbase") {
            Venue::Coinbase
        } else {
            let mut e = String::from_str("venue no soportado aún: ");
            e.append(w.as_str());
            e.append(" (binance, okx, coinbase)");
            proof {
                assert(venues_of(ps.take(i + 1)) == Err::<Seq<Venue>, Seq<char>>(e@));
                lemma_venues_stop(ps, i + 1);
            }
            return Err(e);
        };
        v.push(x);
        i += 1;
    }
    assert(ps.take(i as int) =~= ps);
    Ok(v)
}

proof fn lemma_venues_stop(p: Seq<Seq<char>>, k: int)
    requires
        0 <= k <= p.len(),
        venues_of(p.take(k)) is Err,
    ensures
        venues_of(p) == venues_of(p.take(k)),
    decreases p.len(),
{
    if k < p.len() {
        assert(p.drop_last().take(k) =~= p.take(k));
        lemma_venues_stop(p.drop_last(), k);
    } else {
        assert(p.take(k) =~= p);
    }
}

proof fn lemma_kinds_stop(p: Seq<Seq<char>>, k: int)
    requires
        0 <= k <= p.len(),
        kinds_of(p.take(k)) is Err,
    ensures
        kinds_of(p) == kinds_of(p.take(k)),
    decreases p.len(),
{
    if k < p.len() {
        assert(p.drop_last().take(k) =~= p.take(k));
        lemma_kinds_stop(p.drop_last(), k);
    } else {
        assert(p.take(k) =~= p);
    }
}

/// The kinds of market of a list.
fn read_kinds(t: &str) -> (r: Result<Vec<MarketKind>, String>)
    ensures
        match r {
            Ok(v) => kinds_of(pieces(t@, ',')) == Ok::<Seq<MarketKind>, Seq<char>>(v@),
            Err(e) => kinds_of(pieces(t@, ',')) == Err::<Seq<MarketKind>, Seq<char>>(e@),
        },
{
    let p = split_on(t, ',');
    let ghost ps = pieces(t@, ',');
    let mut v: Vec<MarketKind> = Vec::new();
    let mut i: usize = 0;
    assert(ps.take(0) =~= Seq::<Seq<char>>::empty());
    while i < p.len()
        invariant
            i <= p@.len(),
            ps == p.deep_view(),
            ps == pieces(t@, ','),
            ps.len() == p@.len(),
            kinds_of(ps.take(i as int)) == Ok::<Seq<MarketKind>, Seq<char>>(v@),
        decreases p@.len() - i,
    {
        assert(ps[i as int] == p@[i as int]@);
        assert(ps.take(i + 1).drop_last() =~= ps.take(i as int));
        let w = trim(p[i].as_str());
        let x = if same_text(w.as_str(), "spot") {
            MarketKind::Spot
        } else if same_text(w.as_str(), "perp") {
            MarketKind::Perp
        } else {
            let mut e = String::from_str("mercado desconocido: ");
            e.append(w.as_str());
            proof {
                assert(kinds_of(ps.take(i + 1)) == Err::<Seq<MarketKind>, Seq<char>>(e@));
                lemma_kinds_stop(ps, i + 1);
            }
            return Err(e);
        };
        v.push(x);
        i += 1;
    }
    assert(ps.take(i as int) =~= ps);
    Ok(v)
}

fn wants_value(k: &str) -> (r: bool)
    ensures
        r == takes_value(k@),
{
    same_text(k, "--symbol") || same_text(k, "--coinbase-product") || same_text(k, "--venues")
        || same_text(k, "--markets") || same_text(k, "--lines") || same_text(k, "--listen")
        || same_text(k, "--io-threads") || same_text(k, "--ca-file") || same_text(k, "--log")
        || same_text(k, "--sim-seed") || same_text(k, "--chaos-drop") || same_text(
        k,
        "--chaos-jitter-ms",
    ) || same_text(k, "--chaos-outage-s") || same_text(k, "--chaos-snapshot-fail")
}

/// Reads the arguments of the node (without the name of the program). The simulation
/// follows the rules of Binance, and takes its place.
pub fn parse_args(words: &[Word]) -> (r: Parsed)
    ensures
        r@ == parsed_from(words@, 0, usual()),
{
    let mut bag = Bag::usual();
    let mut i: usize = 0;
    while i < words.len()
        invariant
            i <= words@.len(),
            parsed_from(words@, 0, usual()) == parsed_from(words@, i as int, bag.seen()),
        decreases words@.len() - i,
    {
        let ghost g = bag.seen();
        let k = words[i].text.as_str();
        if same_text(k, "--pin") {
            bag.args.pin = true;
            assert(bag.seen() =~= (Gathered { args: ArgsShow { pin: true, ..g.args }, ..g }));
            i += 1;
        } else if same_text(k, "--sim") {
            bag.sim_on = true;
            assert(bag.seen() =~= (Gathered { sim_on: true, ..g }));
            i += 1;
        } else if same_text(k, "-h") || same_text(k, "--help") {
            return Parsed::Help;
        } else if !wants_value(k) {
            let mut e = String::from_str("argumento desconocido: ");
            e.append(k);
            return Parsed::Fail(e);
        } else if words.len() - i < 2 {
            let mut e = String::from_str("falta valor para ");
            e.append(k);
            return Parsed::Fail(e);
        } else {
            match bag.take(k, &words[i + 1]) {
                Ok(_) => {},
                Err(e) => {
                    return Parsed::Fail(e);
                },
            }
            i += 2;
        }
    }
    let ghost g = bag.seen();
    if bag.sim_on {
        let mut venues: Vec<Venue> = Vec::new();
        venues.push(Venue::Binance);
        bag.args.venues = venues;
        bag.args.sim = Some(bag.sim);
    } else {
        bag.args.sim = None;
    }
    let r = Parsed::Run(bag.args);
    assert(r@->Run_0 =~= parsed_from(words@, i as int, g)->Run_0);
    r
}

/// Whatever runs has at least one venue and one market, and between one line and the most.
pub proof fn law_options_sound(words: Seq<Word>, i: int, g: Gathered)
    requires
        g.args.venues.len() > 0,
        g.args.markets.len() > 0,
        1 <= g.args.lines <= MAX_LINES,
    ensures
        match parsed_from(words, i, g) {
            ParsedShow::Run(a) => {
                &&& a.venues.len() > 0
                &&& a.markets.len() > 0
                &&& 1 <= a.lines <= MAX_LINES
                &&& a.sim is Some ==> a.venues == seq![Venue::Binance]
            },
            _ => true,
        },
    decreases words.len() - i,
{
    if 0 <= i < words.len() {
        let k = words[i].text@;
        if k == "--pin"@ {
            law_options_sound(
                words,
                i + 1,
                Gathered { args: ArgsShow { pin: true, ..g.args }, ..g },
            );
        } else if k == "--sim"@ {
            law_options_sound(words, i + 1, Gathered { sim_on: true, ..g });
        } else if takes_value(k) && i + 1 < words.len() && valued(g, k, words[i + 1]) is Ok {
            let t = words[i + 1].text@;
            lemma_lists(pieces(t, ','));
            lemma_pieces_some(t, ',');
            law_options_sound(words, i + 2, valued(g, k, words[i + 1])->Ok_0);
        }
    }
}

proof fn lemma_pieces_some(t: Seq<char>, c: char)
    ensures
        pieces(t, c).len() > 0,
    decreases t.len(),
{
    if t.len() > 0 {
        lemma_pieces_some(t.drop_last(), c);
    }
}

proof fn lemma_lists(p: Seq<Seq<char>>)
    ensures
        venues_of(p) is Ok ==> venues_of(p)->Ok_0.len() == p.len(),
        kinds_of(p) is Ok ==> kinds_of(p)->Ok_0.len() == p.len(),
    decreases p.len(),
{
    if p.len() > 0 {
        lemma_lists(p.drop_last());
    }
}

} // verus!

//! Latency histograms and the Prometheus text format.

use crate::num::clamp_u64;
use crate::ordmap::{find, holds, lemma_rank_splits, put, rank, sorted};
use crate::text::{chars_of, dec, push_dec, same_text};
use hdrhistogram::Histogram;
use vstd::prelude::*;
use vstd::string::StringExecFns;

verus! {

/// The longest latency told apart, µs.
pub const LATENCY_MAX_US: u64 = 60_000_000;

/// Significant figures of a latency.
pub const LATENCY_FIGURES: u8 = 3;

/// An `hdrhistogram::Histogram`.
#[verifier::external_body]
pub struct Counts {
    h: Histogram<u64>,
}

/// The levels of a histogram that hold some value, in order, each with its count.
pub uninterp spec fn tally(c: Counts) -> Seq<(u64, u64)>;

/// The highest value and the significant figures that a histogram was made with.
pub uninterp spec fn made_with(c: Counts) -> (u64, u8);

/// The values under which `Histogram` tells each from the next with some significant
/// figures, up to five: the first power of two that is at least `2 * 10^figures`.
pub open spec fn resolution(figures: u8) -> int {
    if figures == 0 {
        2
    } else if figures == 1 {
        32
    } else if figures == 2 {
        256
    } else if figures == 3 {
        2_048
    } else if figures == 4 {
        32_768
    } else {
        262_144
    }
}

/// How many consecutive values `Histogram` does not tell apart around `v`: one under its
/// resolution and twice as many each time the value doubles.
pub open spec fn width_of(v: int, figures: u8) -> int
    decreases v,
{
    if v < resolution(figures) {
        1
    } else {
        2 * width_of(v / 2, figures)
    }
}

/// The level to which a value is rounded: the highest value that `Histogram` does not
/// tell from it.
pub open spec fn level_of(v: u64, figures: u8) -> u64 {
    let w = width_of(v as int, figures);
    ((v as int / w + 1) * w - 1) as u64
}

/// How many values there are in all.
pub open spec fn total(t: Seq<(u64, u64)>) -> int
    decreases t.len(),
{
    if t.len() == 0 {
        0
    } else {
        total(t.drop_last()) + t.last().1
    }
}

/// How many values there are at a level.
pub open spec fn count_at(t: Seq<(u64, u64)>, level: u64) -> int {
    match find(t, level) {
        Some(n) => n as int,
        None => 0,
    }
}

/// The tally with one value more at a level.
pub open spec fn counted(t: Seq<(u64, u64)>, level: u64) -> Seq<(u64, u64)> {
    put(t, level, (count_at(t, level) + 1) as u64)
}

impl Counts {
    /// `Histogram::new_with_max`, which does not fail within these bounds: nothing is
    /// recorded.
    #[verifier::external_body]
    fn new(high: u64, figures: u8) -> (r: Counts)
        requires
            2 <= high <= i64::MAX,
            figures <= 5,
        ensures
            tally(r) == Seq::<(u64, u64)>::empty(),
            made_with(r) == (high, figures),
    {
        Counts { h: Histogram::new_with_max(high, figures).expect("valid bounds") }
    }

    /// `Histogram::record`: does not fail up to the highest value, and counts the value
    /// once more at its level, which is what `Histogram::highest_equivalent` gives for it.
    #[verifier::external_body]
    fn record(&mut self, v: u64) -> (ok: bool)
        requires
            v <= made_with(*old(self)).0,
            total(tally(*old(self))) < u64::MAX,
        ensures
            ok,
            sorted(tally(*final(self))),
            tally(*final(self)) == counted(
                tally(*old(self)),
                level_of(v, made_with(*old(self)).1),
            ),
            made_with(*final(self)) == made_with(*old(self)),
    {
        self.h.record(v).is_ok()
    }

    /// `Histogram::len`: how many values were recorded.
    #[verifier::external_body]
    fn len(&self) -> (n: u64)
        requires
            total(tally(*self)) <= u64::MAX,
        ensures
            n == total(tally(*self)),
    {
        self.h.len()
    }

    /// `Histogram::iter_recorded`: each level that holds some value, in order, with its
    /// count.
    #[verifier::external_body]
    fn levels(&self) -> (v: Vec<(u64, u64)>)
        requires
            total(tally(*self)) <= u64::MAX,
        ensures
            v@ == tally(*self),
    {
        self.h.iter_recorded().map(|i| (i.value_iterated_to(), i.count_at_value())).collect()
    }

    /// `Histogram::reset`: nothing is recorded any more.
    #[verifier::external_body]
    fn reset(&mut self)
        ensures
            tally(*final(self)) == Seq::<(u64, u64)>::empty(),
            made_with(*final(self)) == made_with(*old(self)),
    {
        self.h.reset()
    }
}

proof fn lemma_width(v: int)
    requires
        v >= 0,
    ensures
        width_of(v, LATENCY_FIGURES) >= 1,
        v >= 2048 ==> 1024 * width_of(v, LATENCY_FIGURES) <= v,
        v < 2048 ==> width_of(v, LATENCY_FIGURES) == 1,
    decreases v,
{
    if v >= 2048 {
        lemma_width(v / 2);
    }
}

/// A latency is kept with three figures: its level is not under it, and exceeds it by
/// less than one part in a thousand.
pub proof fn law_level_is_close(us: i64)
    ensures
        latency_kept(us) <= level_of(latency_kept(us), LATENCY_FIGURES),
        (level_of(latency_kept(us), LATENCY_FIGURES) - latency_kept(us)) * 1_000 < latency_kept(
            us,
        ),
{
    let v = latency_kept(us) as int;
    let w = width_of(v, LATENCY_FIGURES);
    lemma_width(v);
    vstd::arithmetic::div_mod::lemma_fundamental_div_mod(v, w);
    vstd::arithmetic::div_mod::lemma_mod_bound(v, w);
    assert((v / w + 1) * w == w * (v / w) + w) by (nonlinear_arith);
    assert(v <= (v / w + 1) * w - 1 < v + w);
}

proof fn lemma_total_update(t: Seq<(u64, u64)>, i: int, e: (u64, u64))
    requires
        0 <= i < t.len(),
    ensures
        total(t.update(i, e)) == total(t) - t[i].1 + e.1,
    decreases t.len(),
{
    let u = t.update(i, e);
    if i == t.len() - 1 {
        assert(u.drop_last() =~= t.drop_last());
    } else {
        assert(u.drop_last() =~= t.drop_last().update(i, e));
        lemma_total_update(t.drop_last(), i, e);
    }
}

proof fn lemma_total_insert(t: Seq<(u64, u64)>, i: int, e: (u64, u64))
    requires
        0 <= i <= t.len(),
    ensures
        total(t.insert(i, e)) == total(t) + e.1,
    decreases t.len(),
{
    let u = t.insert(i, e);
    if i == t.len() {
        assert(u.drop_last() =~= t);
    } else {
        assert(u.drop_last() =~= t.drop_last().insert(i, e));
        assert(u.last() == t.last());
        lemma_total_insert(t.drop_last(), i, e);
    }
}

proof fn lemma_total_counts(t: Seq<(u64, u64)>, i: int)
    requires
        0 <= i < t.len(),
    ensures
        t[i].1 <= total(t),
    decreases t.len(),
{
    if t.len() > 1 {
        let j = if i < t.len() - 1 {
            i
        } else {
            0
        };
        lemma_total_counts(t.drop_last(), j);
        assert(t.drop_last()[j] == t[j]);
    } else {
        assert(total(t.drop_last()) == 0);
    }
}

/// A latency more is one more in all, and at its level.
pub proof fn law_every_latency_counted(t: Seq<(u64, u64)>, level: u64)
    requires
        sorted(t),
        total(t) < u64::MAX,
    ensures
        total(counted(t, level)) == total(t) + 1,
        count_at(counted(t, level), level) == count_at(t, level) + 1,
        forall|l: u64|
            l != level ==> #[trigger] count_at(counted(t, level), l) == count_at(t, l),
{
    let n = (count_at(t, level) + 1) as u64;
    let p = rank(t, level) as int;
    lemma_rank_splits(t, level);
    crate::ordmap::lemma_put(t, level, n);
    if holds(t, level) {
        lemma_total_counts(t, p);
        lemma_total_update(t, p, (level, n));
    } else {
        lemma_total_insert(t, p, (level, n));
    }
    assert(find(put(t, level, n), level) == Some(n));
    assert forall|l: u64| l != level implies #[trigger] count_at(counted(t, level), l)
        == count_at(t, l) by {
        assert(find(put(t, level, n), l) == find(t, l));
    }
}

/// What a [`LatencyHist`] holds.
#[verifier::ext_equal]
pub struct LatencyState {
    /// The levels with some latency, µs, each with its count.
    pub tally: Seq<(u64, u64)>,
    /// How many came negative.
    pub negatives: u64,
}

/// A latency as it is recorded: between 1 µs and 60 s.
pub open spec fn latency_kept(us: i64) -> u64 {
    if us < 1 {
        1
    } else if us > LATENCY_MAX_US {
        LATENCY_MAX_US
    } else {
        us as u64
    }
}

/// The state after a latency: a negative one (a skew of the clocks) is counted apart.
/// Once the count is at its limit, it stays there.
pub open spec fn latency_next(s: LatencyState, us: i64) -> LatencyState {
    if us < 0 {
        LatencyState { negatives: clamp_u64(s.negatives + 1) as u64, ..s }
    } else if total(s.tally) >= u64::MAX {
        s
    } else {
        LatencyState { tally: counted(s.tally, level_of(latency_kept(us), LATENCY_FIGURES)), ..s }
    }
}

/// Histogram of latencies in µs (1 µs to 60 s, three significant figures).
pub struct LatencyHist {
    c: Counts,
    negatives: u64,
}

impl LatencyHist {
    #[verifier::type_invariant]
    spec fn wf(self) -> bool {
        &&& sorted(tally(self.c))
        &&& total(tally(self.c)) <= u64::MAX
        &&& made_with(self.c) == (LATENCY_MAX_US, LATENCY_FIGURES)
    }

    /// What the histogram holds.
    pub closed spec fn content(&self) -> LatencyState {
        LatencyState { tally: tally(self.c), negatives: self.negatives }
    }

    /// An empty histogram.
    pub fn new() -> (r: Self)
        ensures
            r.content() == (LatencyState { tally: Seq::empty(), negatives: 0 }),
    {
        LatencyHist { c: Counts::new(LATENCY_MAX_US, LATENCY_FIGURES), negatives: 0 }
    }

    /// Records a signed latency in µs.
    pub fn record_us(&mut self, us: i64)
        ensures
            final(self).content() == latency_next(old(self).content(), us),
    {
        proof {
            use_type_invariant(&*self);
        }
        if us < 0 {
            self.negatives = self.negatives.saturating_add(1);
            return;
        }
        if self.c.len() == u64::MAX {
            return;
        }
        let v: u64 = if us < 1 {
            1
        } else if us as u64 > LATENCY_MAX_US {
            LATENCY_MAX_US
        } else {
            us as u64
        };
        proof {
            law_every_latency_counted(tally(self.c), level_of(v, LATENCY_FIGURES));
        }
        let mut c = Counts::new(LATENCY_MAX_US, LATENCY_FIGURES);
        core::mem::swap(&mut c, &mut self.c);
        let _ = c.record(v);
        self.c = c;
    }

    /// How many latencies were recorded.
    pub fn count(&self) -> (r: u64)
        ensures
            r == total(self.content().tally),
    {
        proof {
            use_type_invariant(self);
        }
        self.c.len()
    }

    /// How many came negative.
    pub fn negatives(&self) -> (r: u64)
        ensures
            r == self.content().negatives,
    {
        self.negatives
    }

    /// The levels with some latency, µs, in order, each with its count.
    pub fn levels(&self) -> (r: Vec<(u64, u64)>)
        ensures
            r@ == self.content().tally,
            sorted(r@),
    {
        proof {
            use_type_invariant(self);
        }
        self.c.levels()
    }

    /// The level of the longest latency, µs; zero where there is none.
    pub fn max_us(&self) -> (r: u64)
        ensures
            r == (if self.content().tally.len() == 0 {
                0
            } else {
                self.content().tally.last().0
            }),
    {
        let v = self.levels();
        if v.len() == 0 {
            0
        } else {
            v[v.len() - 1].0
        }
    }

    /// Starts again (measurement windows).
    pub fn reset(&mut self)
        ensures
            final(self).content() == (LatencyState { tally: Seq::empty(), negatives: 0 }),
    {
        proof {
            use_type_invariant(&*self);
        }
        let mut c = Counts::new(LATENCY_MAX_US, LATENCY_FIGURES);
        core::mem::swap(&mut c, &mut self.c);
        c.reset();
        self.c = c;
        self.negatives = 0;
    }
}

/// Kind of metric.
#[derive(Clone, Copy, PartialEq, Eq, Structural)]
pub enum MetricType {
    /// Monotonic counter.
    Counter,
    /// Instant value.
    Gauge,
}

impl MetricType {
    /// The word of the text format.
    pub open spec fn word(self) -> Seq<char> {
        match self {
            MetricType::Counter => "counter"@,
            MetricType::Gauge => "gauge"@,
        }
    }
}

/// What a [`PromWriter`] holds.
#[verifier::ext_equal]
pub struct PromState {
    /// The text so far.
    pub out: Seq<char>,
    /// The metrics already declared.
    pub declared: Seq<Seq<char>>,
}

/// A character of a label's value as it is written.
pub open spec fn escaped_char(c: char) -> Seq<char> {
    if c == '\\' {
        seq!['\\', '\\']
    } else if c == '"' {
        seq!['\\', '"']
    } else if c == '\n' {
        seq!['\\', 'n']
    } else {
        seq![c]
    }
}

/// The value of a label as it is written.
pub open spec fn escaped(t: Seq<char>) -> Seq<char>
    decreases t.len(),
{
    if t.len() == 0 {
        Seq::empty()
    } else {
        escaped(t.drop_last()) + escaped_char(t.last())
    }
}

/// One label as it is written.
pub open spec fn label_text(l: (Seq<char>, Seq<char>)) -> Seq<char> {
    l.0 + seq!['=', '"'] + escaped(l.1) + seq!['"']
}

/// Some labels as they are written, joined by commas.
pub open spec fn labels_text(v: Seq<(Seq<char>, Seq<char>)>) -> Seq<char>
    decreases v.len(),
{
    if v.len() == 0 {
        Seq::empty()
    } else if v.len() == 1 {
        label_text(v[0])
    } else {
        labels_text(v.drop_last()) + seq![','] + label_text(v.last())
    }
}

/// The declaration of a metric.
pub open spec fn declaration(name: Seq<char>, help: Seq<char>, ty: MetricType) -> Seq<char> {
    "# HELP "@ + name + " "@ + help + "\n# TYPE "@ + name + " "@ + ty.word() + "\n"@
}

/// One sample as it is written.
pub open spec fn sample_text(
    name: Seq<char>,
    labels: Seq<(Seq<char>, Seq<char>)>,
    value: Seq<char>,
) -> Seq<char> {
    name + (if labels.len() == 0 {
        Seq::empty()
    } else {
        seq!['{'] + labels_text(labels) + seq!['}']
    }) + " "@ + value + "\n"@
}

/// The writer after a sample: the metric is declared the first time.
pub open spec fn sample_next(
    s: PromState,
    name: Seq<char>,
    help: Seq<char>,
    ty: MetricType,
    labels: Seq<(Seq<char>, Seq<char>)>,
    value: Seq<char>,
) -> PromState {
    let d = if s.declared.contains(name) {
        s
    } else {
        PromState {
            out: s.out + declaration(name, help, ty),
            declared: s.declared.push(name),
        }
    };
    PromState { out: d.out + sample_text(name, labels, value), ..d }
}

/// Writer of the Prometheus text format.
pub struct PromWriter {
    out: String,
    declared: Vec<&'static str>,
}

fn push_escaped(out: &mut String, t: &str)
    ensures
        final(out)@ == old(out)@ + escaped(t@),
{
    let v = chars_of(t);
    let mut i: usize = 0;
    assert(v@.take(0) =~= Seq::<char>::empty());
    assert(out@ + Seq::<char>::empty() =~= out@);
    while i < v.len()
        invariant
            i <= v.len(),
            v@ == t@,
            out@ == old(out)@ + escaped(v@.take(i as int)),
        decreases v.len() - i,
    {
        assert(v@.take(i + 1).drop_last() =~= v@.take(i as int));
        let ghost was = out@;
        let c = v[i];
        if c == '\\' {
            out.push('\\');
            out.push('\\');
        } else if c == '"' {
            out.push('\\');
            out.push('"');
        } else if c == '\n' {
            out.push('\\');
            out.push('n');
        } else {
            out.push(c);
        }
        assert(out@ =~= was + escaped_char(c));
        i += 1;
        assert(out@ =~= old(out)@ + escaped(v@.take(i as int)));
    }
    assert(v@.take(i as int) =~= v@);
}

fn push_label(out: &mut String, k: &str, v: &str)
    ensures
        final(out)@ == old(out)@ + label_text((k@, v@)),
{
    out.append(k);
    out.push('=');
    out.push('"');
    push_escaped(out, v);
    out.push('"');
    assert(out@ =~= old(out)@ + label_text((k@, v@)));
}

impl PromWriter {
    /// What the writer holds.
    pub closed spec fn content(&self) -> PromState {
        PromState { out: self.out@, declared: self.declared.deep_view() }
    }

    /// A new writer.
    pub fn new() -> (r: Self)
        ensures
            r.content() == (PromState { out: Seq::empty(), declared: Seq::empty() }),
    {
        let r = PromWriter { out: String::new(), declared: Vec::new() };
        assert(r.content().out =~= Seq::<char>::empty());
        assert(r.content().declared =~= Seq::<Seq<char>>::empty());
        r
    }

    fn is_declared(&self, name: &str) -> (r: bool)
        ensures
            r == self.content().declared.contains(name@),
    {
        let ghost d = self.declared.deep_view();
        let mut i: usize = 0;
        while i < self.declared.len()
            invariant
                i <= self.declared.len(),
                d == self.declared.deep_view(),
                d.len() == self.declared.len(),
                forall|j: int| 0 <= j < i ==> #[trigger] d[j] != name@,
            decreases self.declared.len() - i,
        {
            if same_text(self.declared[i], name) {
                assert(d[i as int] == name@);
                return true;
            }
            assert(d[i as int] != name@);
            i += 1;
        }
        false
    }

    /// Writes a sample; the metric is declared the first time. `value` is the number as
    /// it is shown.
    #[verifier::spinoff_prover]
    #[verifier::rlimit(40)]
    pub fn sample(
        &mut self,
        name: &'static str,
        help: &str,
        ty: MetricType,
        labels: &[(&str, &str)],
        value: &str,
    )
        ensures
            final(self).content() == sample_next(
                old(self).content(),
                name@,
                help@,
                ty,
                labels.deep_view(),
                value@,
            ),
    {
        let ghost s0 = self.content();
        if !self.is_declared(name) {
            let ghost before = self.declared.deep_view();
            self.declared.push(name);
            assert(self.declared.deep_view() =~= before.push(name@));
            let ghost o = self.out@;
            self.out.append("# HELP ");
            self.out.append(name);
            self.out.append(" ");
            self.out.append(help);
            self.out.append("\n# TYPE ");
            self.out.append(name);
            self.out.append(" ");
            match ty {
                MetricType::Counter => self.out.append("counter"),
                MetricType::Gauge => self.out.append("gauge"),
            }
            self.out.append("\n");
            assert(self.out@ =~= o + declaration(name@, help@, ty));
        }
        let ghost d = self.content();
        self.out.append(name);
        let ghost l = labels.deep_view();
        if labels.len() > 0 {
            self.out.push('{');
            let ghost o = self.out@;
            let mut i: usize = 0;
            assert(l.take(0) =~= Seq::<(Seq<char>, Seq<char>)>::empty());
            assert(o + Seq::<char>::empty() =~= o);
            while i < labels.len()
                invariant
                    i <= labels.len(),
                    l == labels.deep_view(),
                    l.len() == labels.len(),
                    self.declared.deep_view() == d.declared,
                    self.out@ == o + labels_text(l.take(i as int)),
                decreases labels.len() - i,
            {
                let ghost was = self.out@;
                assert(l.take(i + 1).drop_last() =~= l.take(i as int));
                assert(l.take(i + 1).last() == (labels[i as int].0@, labels[i as int].1@));
                if i > 0 {
                    self.out.push(',');
                }
                push_label(&mut self.out, labels[i].0, labels[i].1);
                i += 1;
                assert(self.out@ =~= o + labels_text(l.take(i as int)));
            }
            assert(l.take(i as int) =~= l);
            self.out.push('}');
        }
        self.out.append(" ");
        self.out.append(value);
        self.out.append("\n");
        assert(self.out@ =~= d.out + sample_text(name@, l, value@));
    }

    /// The text.
    pub fn finish(self) -> (r: String)
        ensures
            r@ == self.content().out,
    {
        self.out
    }
}

/// No metric is declared twice, whatever is written: where the names declared are
/// different, they stay so, and every metric written is among them.
pub proof fn law_declared_once(
    s: PromState,
    name: Seq<char>,
    help: Seq<char>,
    ty: MetricType,
    labels: Seq<(Seq<char>, Seq<char>)>,
    value: Seq<char>,
)
    requires
        s.declared.no_duplicates(),
    ensures
        sample_next(s, name, help, ty, labels, value).declared.no_duplicates(),
        sample_next(s, name, help, ty, labels, value).declared.contains(name),
{
    let n = sample_next(s, name, help, ty, labels, value);
    if !s.declared.contains(name) {
        assert(n.declared[s.declared.len() as int] == name);
    }
}

/// The decimals of a fraction in thousandths, without the zeros at the end.
pub open spec fn thousandths(f: int) -> Seq<char> {
    let a = f / 100;
    let b = f / 10 % 10;
    let c = f % 10;
    let d = |x: int| (48 + x) as char;
    if f == 0 {
        Seq::empty()
    } else if b == 0 && c == 0 {
        seq!['.', d(a)]
    } else if c == 0 {
        seq!['.', d(a), d(b)]
    } else {
        seq!['.', d(a), d(b), d(c)]
    }
}

/// Microseconds as milliseconds: `62600` is `62.6`.
pub open spec fn ms_text(us: u64) -> Seq<char> {
    dec((us / 1000) as nat) + thousandths((us % 1000) as int)
}

/// Microseconds as milliseconds.
pub fn us_to_ms(us: u64) -> (r: String)
    ensures
        r@ == ms_text(us),
{
    let mut s = String::new();
    push_dec(&mut s, (us / 1000) as u128);
    let f: u64 = us % 1000;
    let a: u8 = (f / 100) as u8;
    let b: u8 = (f / 10 % 10) as u8;
    let c: u8 = (f % 10) as u8;
    if f > 0 {
        s.push('.');
        s.push((48u8 + a) as char);
        if b != 0 || c != 0 {
            s.push((48u8 + b) as char);
            if c != 0 {
                s.push((48u8 + c) as char);
            }
        }
    }
    assert(s@ =~= ms_text(us));
    s
}

} // verus!

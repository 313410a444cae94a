//! What a venue's protocol does on a line, and the policy of the line itself.

use crate::event::{EventView, MarketEvent, RxStamp};
use crate::text::{contains, within};
use vstd::prelude::*;
use vstd::string::StringExecFns;

verus! {

/// The events of a list.
pub open spec fn events_of(v: Seq<MarketEvent>) -> Seq<EventView> {
    Seq::new(v.len(), |i: int| v[i]@)
}

/// An outcome seen through its message.
pub open spec fn said(r: Result<(), String>) -> Result<(), Seq<char>> {
    match r {
        Ok(_) => Ok(()),
        Err(e) => Err(e@),
    }
}

/// What reading a frame does: the state after it, the events it gives, and the outcome.
/// An error may come after some events.
#[verifier::ext_equal]
pub struct Parsed<S> {
    /// The state after the frame.
    pub state: S,
    /// The events, in order.
    pub events: Seq<EventView>,
    /// The outcome.
    pub outcome: Result<(), Seq<char>>,
}

/// Particularities of a venue on the connection.
pub trait Protocol: Sized {
    /// What the protocol holds.
    type State;

    /// What the protocol holds now.
    spec fn state(&self) -> Self::State;

    /// A new connection: the state after it and the messages to send.
    spec fn connect_next(s: Self::State) -> (Self::State, Seq<Seq<char>>);

    /// A new snapshot asked for: the state after it and the messages to send, or `None`
    /// where the line has to reconnect.
    spec fn resubscribe_next(s: Self::State) -> (Self::State, Option<Seq<Seq<char>>>);

    /// The heartbeat: every how many ms, and the text.
    spec fn heartbeat(s: Self::State) -> Option<(u64, Seq<char>)>;

    /// What a frame of text does.
    spec fn parse_next(s: Self::State, text: Seq<char>, rx: RxStamp) -> Parsed<Self::State>;

    /// Whether a snapshot is asked for, which is asked for once.
    spec fn resync_next(s: Self::State) -> (Self::State, bool);

    /// Messages to send after connecting. Empty where the URL already subscribes.
    fn on_connect(&mut self) -> (r: Vec<String>)
        ensures
            Self::connect_next(old(self).state()) == (final(self).state(), r.deep_view()),
    ;

    /// Messages that get a new snapshot without reconnecting. `None` reconnects.
    fn resubscribe(&mut self) -> (r: Option<Vec<String>>)
        ensures
            Self::resubscribe_next(old(self).state()) == (final(self).state(), r.deep_view()),
    ;

    /// Heartbeat of the application: every how many ms, and the text to send.
    fn keepalive(&self) -> (r: Option<(u64, &'static str)>)
        ensures
            match r {
                Some(b) => Self::heartbeat(self.state()) == Some((b.0, b.1@)),
                None => Self::heartbeat(self.state()) is None,
            },
    ;

    /// Reads a frame of text and appends its events to `out`.
    fn parse(&mut self, text: &str, rx: RxStamp, out: &mut Vec<MarketEvent>) -> (r: Result<
        (),
        String,
    >)
        ensures
            ({
                let p = Self::parse_next(old(self).state(), text@, rx);
                &&& final(self).state() == p.state
                &&& events_of(final(out)@) == events_of(old(out)@) + p.events
                &&& said(r) == p.outcome
            }),
    ;

    /// Whether the protocol found the state of this connection invalid and asks for a
    /// new snapshot. Asked after each frame; the request is consumed.
    fn take_resync(&mut self) -> (r: bool)
        ensures
            Self::resync_next(old(self).state()) == (final(self).state(), r),
    ;
}

/// Orders to a running line.
#[derive(Debug, Clone, Copy, PartialEq, Eq, Structural)]
pub enum LineCmd {
    /// Get a new snapshot (by subscribing again or by reconnecting, as the protocol has
    /// it).
    Resnapshot,
}

/// Specification of a line.
pub struct LineSpec {
    /// Label for logs.
    pub label: String,
    /// Index of the line (0 is A, 1 is B, ...).
    pub line: u8,
    /// URL of the stream.
    pub url: String,
    /// Alternative URLs (another host, the same stream).
    pub fallback_urls: Vec<String>,
    /// Longest life of a connection before it is rotated, s.
    pub max_age_s: u64,
    /// Longest silence before it reconnects, s.
    pub idle_timeout_s: u64,
}

/// The hours of a line before its rotation: 23, three less per index, at least six, so
/// that the lines never fall together.
pub open spec fn rotation_hours(line: u8) -> int {
    if 23 - 3 * line < 6 {
        6
    } else {
        23 - 3 * line
    }
}

impl LineSpec {
    /// A line with the default rotation and watchdog.
    pub fn new(label: &str, line: u8, url: &str) -> (r: Self)
        ensures
            r.label@ == label@,
            r.line == line,
            r.url@ == url@,
            r.fallback_urls@.len() == 0,
            r.max_age_s == rotation_hours(line) * 3600,
            r.idle_timeout_s == 10,
    {
        let hours: u64 = if line >= 6 {
            6
        } else {
            23 - 3 * line as u64
        };
        LineSpec {
            label: String::from_str(label),
            line,
            url: String::from_str(url),
            fallback_urls: Vec::new(),
            max_age_s: hours * 3600,
            idle_timeout_s: 10,
        }
    }

    /// The line with alternative URLs.
    pub fn with_fallbacks(self, urls: Vec<String>) -> (r: Self)
        ensures
            r == (LineSpec { fallback_urls: urls, ..self }),
    {
        LineSpec {
            label: self.label,
            line: self.line,
            url: self.url,
            fallback_urls: urls,
            max_age_s: self.max_age_s,
            idle_timeout_s: self.idle_timeout_s,
        }
    }
}

/// Each of the first six lines rotates later than every line after it, and no
/// line before six hours or after twenty-three.
pub proof fn law_rotations_staggered(a: u8, b: u8)
    requires
        a < b,
        a < 6,
    ensures
        rotation_hours(b) < rotation_hours(a),
        6 <= rotation_hours(b),
        rotation_hours(a) <= 23,
{
}

/// Shortest wait between tries, ms.
pub const BACKOFF_BASE_MS: u64 = 250;

/// Longest wait between tries, ms.
pub const BACKOFF_CAP_MS: u64 = 30_000;

/// Failures in a row that change the host.
pub const FAILURES_TO_ROTATE: u32 = 3;

/// What happened to a connection.
pub enum LineEvent<'a> {
    /// It connected and subscribed.
    Up,
    /// It connected and could not subscribe.
    NotSubscribed,
    /// It ended because the node shuts down.
    Shutdown,
    /// It ended to be rotated, or to get a new snapshot.
    Rotated,
    /// It ended for any other cause.
    Down,
    /// It was refused, with the message of the cause.
    Refused(&'a str),
    /// It did not connect in time.
    TimedOut,
}

/// What the line does next.
#[derive(Clone, Copy, PartialEq, Eq, Structural)]
pub enum LineAction {
    /// Go on with the connection.
    Serve,
    /// Stop for good.
    Stop,
    /// Connect at once: the other line covers the gap.
    Now,
    /// Connect after this wait, ms, plus a jitter.
    Wait(u64),
}

/// What the policy of a line holds.
#[verifier::ext_equal]
pub struct PolicyState {
    /// How many URLs there are.
    pub urls: nat,
    /// The URL in use.
    pub idx: nat,
    /// Failures in a row.
    pub failures: nat,
    /// Next wait, ms.
    pub backoff_ms: int,
}

/// The wait after this one: twice as long, up to the cap.
pub open spec fn doubled(b: int) -> int {
    if 2 * b > BACKOFF_CAP_MS {
        BACKOFF_CAP_MS as int
    } else {
        2 * b
    }
}

/// A failure counted: where another URL is due, it is the next one, with a fresh count.
pub open spec fn failed(s: PolicyState, blocked: bool) -> PolicyState {
    let f = if s.failures < u32::MAX {
        s.failures + 1
    } else {
        s.failures
    };
    if s.urls > 1 && (blocked || f >= FAILURES_TO_ROTATE) {
        PolicyState { idx: (s.idx + 1) % s.urls, failures: 0, ..s }
    } else {
        PolicyState { failures: f, ..s }
    }
}

/// The message tells of a block: an HTTP status 451 or 403.
pub open spec fn blocks(message: Seq<char>) -> bool {
    within(message, "451"@) || within(message, "403"@)
}

/// What a line does after an event.
pub open spec fn policy_next(s: PolicyState, e: LineEvent<'_>) -> (PolicyState, LineAction) {
    match e {
        LineEvent::Up => (
            PolicyState { failures: 0, backoff_ms: BACKOFF_BASE_MS as int, ..s },
            LineAction::Serve,
        ),
        LineEvent::Shutdown => (s, LineAction::Stop),
        LineEvent::Rotated => (s, LineAction::Now),
        LineEvent::NotSubscribed | LineEvent::Down => (
            PolicyState { backoff_ms: doubled(s.backoff_ms), ..s },
            LineAction::Wait(s.backoff_ms as u64),
        ),
        LineEvent::Refused(m) => {
            let n = failed(s, blocks(m@));
            let b = if n.failures == 0 {
                BACKOFF_BASE_MS as int
            } else {
                s.backoff_ms
            };
            (PolicyState { backoff_ms: doubled(b), ..n }, LineAction::Wait(b as u64))
        },
        LineEvent::TimedOut => (
            PolicyState { backoff_ms: doubled(s.backoff_ms), ..failed(s, false) },
            LineAction::Wait(s.backoff_ms as u64),
        ),
    }
}

/// The policy of a redundant line: which URL it uses and how long it waits.
pub struct LinePolicy {
    urls: usize,
    idx: usize,
    failures: u32,
    backoff_ms: u64,
}

impl LinePolicy {
    #[verifier::type_invariant]
    spec fn wf(self) -> bool {
        &&& self.idx < self.urls
        &&& BACKOFF_BASE_MS <= self.backoff_ms <= BACKOFF_CAP_MS
    }

    /// What the policy holds.
    pub closed spec fn content(&self) -> PolicyState {
        PolicyState {
            urls: self.urls as nat,
            idx: self.idx as nat,
            failures: self.failures as nat,
            backoff_ms: self.backoff_ms as int,
        }
    }

    /// A line with one URL and some alternatives.
    pub fn new(alternatives: usize) -> (r: Self)
        requires
            alternatives < usize::MAX,
        ensures
            r.content() == (PolicyState {
                urls: (alternatives + 1) as nat,
                idx: 0,
                failures: 0,
                backoff_ms: BACKOFF_BASE_MS as int,
            }),
    {
        LinePolicy { urls: alternatives + 1, idx: 0, failures: 0, backoff_ms: BACKOFF_BASE_MS }
    }

    /// The position of the URL in use: 0 is the first, then the alternatives in order.
    pub fn url(&self) -> (r: usize)
        ensures
            r == self.content().idx,
            r < self.content().urls,
    {
        proof {
            use_type_invariant(self);
        }
        self.idx
    }

    fn fail(&mut self, blocked: bool) -> (rotated: bool)
        ensures
            final(self).content() == failed(old(self).content(), blocked),
            rotated == (final(self).content().failures == 0),
    {
        proof {
            use_type_invariant(&*self);
        }
        let f: u32 = self.failures.saturating_add(1);
        if self.urls > 1 && (blocked || f >= FAILURES_TO_ROTATE) {
            let i: usize = if self.idx + 1 == self.urls {
                0
            } else {
                self.idx + 1
            };
            proof {
                if self.idx + 1 == self.urls {
                    assert((self.idx + 1) as int % self.urls as int == 0) by (nonlinear_arith)
                        requires
                            self.idx + 1 == self.urls,
                            self.urls > 1,
                    ;
                } else {
                    vstd::arithmetic::div_mod::lemma_small_mod(
                        (self.idx + 1) as nat,
                        self.urls as nat,
                    );
                }
            }
            self.idx = i;
            self.failures = 0;
            true
        } else {
            self.failures = f;
            false
        }
    }

    fn wait(&mut self) -> (r: u64)
        ensures
            final(self).content() == (PolicyState {
                backoff_ms: doubled(old(self).content().backoff_ms),
                ..old(self).content()
            }),
            r == old(self).content().backoff_ms,
    {
        proof {
            use_type_invariant(&*self);
        }
        let b: u64 = self.backoff_ms;
        self.backoff_ms = if 2 * b > BACKOFF_CAP_MS {
            BACKOFF_CAP_MS
        } else {
            2 * b
        };
        b
    }

    /// What the line does after an event.
    pub fn on(&mut self, e: LineEvent<'_>) -> (r: LineAction)
        ensures
            (final(self).content(), r) == policy_next(old(self).content(), e),
    {
        proof {
            use_type_invariant(&*self);
        }
        match e {
            LineEvent::Up => {
                self.failures = 0;
                self.backoff_ms = BACKOFF_BASE_MS;
                LineAction::Serve
            },
            LineEvent::Shutdown => LineAction::Stop,
            LineEvent::Rotated => LineAction::Now,
            LineEvent::NotSubscribed => LineAction::Wait(self.wait()),
            LineEvent::Down => LineAction::Wait(self.wait()),
            LineEvent::Refused(m) => {
                let blocked = contains(m, "451") || contains(m, "403");
                if self.fail(blocked) {
                    self.backoff_ms = BACKOFF_BASE_MS;
                }
                LineAction::Wait(self.wait())
            },
            LineEvent::TimedOut => {
                self.fail(false);
                LineAction::Wait(self.wait())
            },
        }
    }
}

/// What always holds of a policy: the URL in use exists, and every wait is between the
/// base and the cap.
pub open spec fn policy_sound(s: PolicyState) -> bool {
    s.idx < s.urls && BACKOFF_BASE_MS <= s.backoff_ms <= BACKOFF_CAP_MS
}

/// Whatever happens, the line uses one of its URLs and waits between the base and the
/// cap.
pub proof fn law_waits_bounded(s: PolicyState, e: LineEvent<'_>)
    requires
        policy_sound(s),
    ensures
        policy_sound(policy_next(s, e).0),
        policy_next(s, e).1 matches LineAction::Wait(w) ==> BACKOFF_BASE_MS <= w
            <= BACKOFF_CAP_MS,
{
    vstd::arithmetic::div_mod::lemma_mod_bound((s.idx + 1) as int, s.urls as int);
}

/// A line with alternatives leaves a URL that blocks it at once, and any other that fails
/// three times in a row.
pub proof fn law_leaves_a_failing_url(s: PolicyState, e: LineEvent<'_>)
    requires
        s.urls > 1,
        s.idx < s.urls,
        match e {
            LineEvent::Refused(m) => blocks(m@) || s.failures + 1 >= FAILURES_TO_ROTATE,
            LineEvent::TimedOut => s.failures + 1 >= FAILURES_TO_ROTATE,
            _ => false,
        },
    ensures
        policy_next(s, e).0.idx == (s.idx + 1) % s.urls,
        policy_next(s, e).0.idx != s.idx,
        policy_next(s, e).0.failures == 0,
{
    if s.idx + 1 < s.urls {
        vstd::arithmetic::div_mod::lemma_small_mod(s.idx + 1, s.urls);
    } else {
        assert((s.idx + 1) as int % s.urls as int == 0) by (nonlinear_arith)
            requires
                s.idx + 1 == s.urls,
                s.urls > 1,
        ;
    }
}

} // verus!

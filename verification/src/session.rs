//! A connection of a line from the moment it is subscribed: what each thing that happens on
//! it leads to.

use crate::event::{EventView, MarketEvent, RxStamp};
use crate::net::{events_of, LineEvent, Protocol};
use vstd::prelude::*;
use vstd::string::StringExecFns;

verus! {

/// Why a connection ends.
#[derive(Debug, Clone, Copy, PartialEq, Eq, Structural)]
pub enum Ending {
    /// The node shuts down.
    Shutdown,
    /// It reached its age.
    Rotation,
    /// A new snapshot needs a new connection.
    Reconnect,
    /// It could not subscribe again.
    Unsubscribed,
    /// The heartbeat could not be sent.
    NoBeat,
    /// Nothing came in time.
    Silent,
    /// The stream ended.
    Closed,
    /// The socket failed.
    Broken,
    /// The protocol found its state invalid, and only a new connection mends it.
    Invalid,
    /// The server said goodbye.
    Goodbye,
}

impl Ending {
    /// The cause as it is logged.
    pub open spec fn text(self) -> Seq<char> {
        match self {
            Ending::Shutdown => "apagado"@,
            Ending::Rotation => "rotación programada"@,
            Ending::Reconnect => "reconexión para snapshot"@,
            Ending::Unsubscribed => "error al re-suscribir"@,
            Ending::NoBeat => "error de latido"@,
            Ending::Silent => "línea muda (watchdog)"@,
            Ending::Closed => "cerrada por el servidor"@,
            Ending::Broken => "error de socket"@,
            Ending::Invalid => "estado de la conexión inválido"@,
            Ending::Goodbye => "close del servidor"@,
        }
    }

    /// The cause as it is logged.
    pub fn reason(self) -> (r: &'static str)
        ensures
            r@ == self.text(),
    {
        match self {
            Ending::Shutdown => "apagado",
            Ending::Rotation => "rotación programada",
            Ending::Reconnect => "reconexión para snapshot",
            Ending::Unsubscribed => "error al re-suscribir",
            Ending::NoBeat => "error de latido",
            Ending::Silent => "línea muda (watchdog)",
            Ending::Closed => "cerrada por el servidor",
            Ending::Broken => "error de socket",
            Ending::Invalid => "estado de la conexión inválido",
            Ending::Goodbye => "close del servidor",
        }
    }

    /// What it is to the policy of the line: a shutdown stops it, a planned end connects at
    /// once, and anything else waits.
    pub fn event(self) -> (r: LineEvent<'static>)
        ensures
            r == (match self {
                Ending::Shutdown => LineEvent::Shutdown,
                Ending::Rotation => LineEvent::Rotated,
                Ending::Reconnect => LineEvent::Rotated,
                _ => LineEvent::Down,
            }),
    {
        match self {
            Ending::Shutdown => LineEvent::Shutdown,
            Ending::Rotation => LineEvent::Rotated,
            Ending::Reconnect => LineEvent::Rotated,
            _ => LineEvent::Down,
        }
    }
}

/// What happens on a connection.
pub enum Input<'a> {
    /// The node shuts down.
    Shutdown,
    /// The connection reached its age.
    Deadline,
    /// The engine asks for a snapshot.
    Resnapshot,
    /// The heartbeat is due.
    Beat,
    /// Nothing came in time.
    Silence,
    /// The stream ended.
    Closed,
    /// The socket failed.
    Broken,
    /// A frame of text came.
    Text(&'a str, RxStamp),
    /// The server said goodbye.
    Goodbye,
    /// Any other frame.
    Other,
}

/// What it leads to.
pub struct Reaction {
    /// Events to be delivered.
    pub events: Vec<MarketEvent>,
    /// A frame that could not be read: why.
    pub fault: Option<String>,
    /// Messages to be sent.
    pub send: Vec<String>,
    /// A closing frame is to be sent.
    pub close: bool,
    /// The connection ends.
    pub end: Option<Ending>,
    /// How it ends where a message cannot be sent.
    pub if_unsent: Option<Ending>,
}

/// What a [`Reaction`] holds.
#[verifier::ext_equal]
pub struct ReactionShow {
    /// Events to be delivered.
    pub events: Seq<EventView>,
    /// Why a frame could not be read.
    pub fault: Option<Seq<char>>,
    /// Messages to be sent.
    pub send: Seq<Seq<char>>,
    /// A closing frame is to be sent.
    pub close: bool,
    /// The connection ends.
    pub end: Option<Ending>,
    /// How it ends where a message cannot be sent.
    pub if_unsent: Option<Ending>,
}

impl View for Reaction {
    type V = ReactionShow;

    open spec fn view(&self) -> ReactionShow {
        ReactionShow {
            events: events_of(self.events@),
            fault: match self.fault {
                Some(e) => Some(e@),
                None => None,
            },
            send: self.send.deep_view(),
            close: self.close,
            end: self.end,
            if_unsent: self.if_unsent,
        }
    }
}

impl ReactionShow {
    /// Nothing to do.
    pub open spec fn none() -> ReactionShow {
        ReactionShow {
            events: Seq::empty(),
            fault: None,
            send: Seq::empty(),
            close: false,
            end: None,
            if_unsent: None,
        }
    }

    /// The connection ends.
    pub open spec fn over(end: Ending, close: bool) -> ReactionShow {
        ReactionShow { close, end: Some(end), ..ReactionShow::none() }
    }
}

/// The events that somebody consumes.
pub open spec fn consumed(v: Seq<EventView>) -> Seq<EventView>
    decreases v.len(),
{
    if v.len() == 0 {
        Seq::empty()
    } else if v.last() is Ignored {
        consumed(v.drop_last())
    } else {
        consumed(v.drop_last()).push(v.last())
    }
}

/// What a frame of text leads to: its events are delivered where it was read whole; and
/// where the protocol asks for it, the line subscribes again, or ends.
pub open spec fn text_next<P: Protocol>(s: P::State, text: Seq<char>, rx: RxStamp) -> (
    P::State,
    ReactionShow,
) {
    let p = P::parse_next(s, text, rx);
    let r = match p.outcome {
        Ok(_) => ReactionShow { events: consumed(p.events), ..ReactionShow::none() },
        Err(e) => ReactionShow { fault: Some(e), ..ReactionShow::none() },
    };
    let (after, resync) = P::resync_next(p.state);
    if !resync {
        (after, r)
    } else {
        let (last, msgs) = P::resubscribe_next(after);
        match msgs {
            Some(send) => (
                last,
                ReactionShow { send, if_unsent: Some(Ending::Unsubscribed), ..r },
            ),
            None => (last, ReactionShow { end: Some(Ending::Invalid), ..r }),
        }
    }
}

/// What happens on a connection leads to this.
pub open spec fn session_next<P: Protocol>(s: P::State, e: Input<'_>) -> (
    P::State,
    ReactionShow,
) {
    match e {
        Input::Shutdown => (s, ReactionShow::over(Ending::Shutdown, true)),
        Input::Deadline => (s, ReactionShow::over(Ending::Rotation, true)),
        Input::Resnapshot => {
            let (after, msgs) = P::resubscribe_next(s);
            match msgs {
                Some(send) => (
                    after,
                    ReactionShow {
                        send,
                        if_unsent: Some(Ending::Unsubscribed),
                        ..ReactionShow::none()
                    },
                ),
                None => (after, ReactionShow::over(Ending::Reconnect, true)),
            }
        },
        Input::Beat => (
            s,
            match P::heartbeat(s) {
                Some(b) => ReactionShow {
                    send: seq![b.1],
                    if_unsent: Some(Ending::NoBeat),
                    ..ReactionShow::none()
                },
                None => ReactionShow::none(),
            },
        ),
        Input::Silence => (s, ReactionShow::over(Ending::Silent, false)),
        Input::Closed => (s, ReactionShow::over(Ending::Closed, false)),
        Input::Broken => (s, ReactionShow::over(Ending::Broken, false)),
        Input::Text(t, rx) => text_next::<P>(s, t@, rx),
        Input::Goodbye => (s, ReactionShow::over(Ending::Goodbye, false)),
        Input::Other => (s, ReactionShow::none()),
    }
}

fn nothing() -> (r: Reaction)
    ensures
        r@ == ReactionShow::none(),
{
    let r = Reaction {
        events: Vec::new(),
        fault: None,
        send: Vec::new(),
        close: false,
        end: None,
        if_unsent: None,
    };
    assert(r@ =~= ReactionShow::none());
    r
}

fn over(end: Ending, close: bool) -> (r: Reaction)
    ensures
        r@ == ReactionShow::over(end, close),
{
    let mut r = nothing();
    r.close = close;
    r.end = Some(end);
    assert(r@ =~= ReactionShow::over(end, close));
    r
}

/// The events that somebody consumes.
fn keep_consumed(v: Vec<MarketEvent>) -> (r: Vec<MarketEvent>)
    ensures
        events_of(r@) == consumed(events_of(v@)),
{
    let ghost all = events_of(v@);
    let mut rest = v;
    let mut back: Vec<MarketEvent> = Vec::new();
    proof {
        assert(all.take(all.len() as int) =~= all);
    }
    while rest.len() > 0
        invariant
            rest@.len() <= all.len(),
            events_of(rest@) == all.take(rest@.len() as int),
            consumed(all) == consumed(events_of(rest@)) + events_of(back@).reverse(),
        decreases rest@.len(),
    {
        let ghost before = events_of(rest@);
        let ghost was = events_of(back@);
        if let Some(e) = rest.pop() {
            let ghost ev = e@;
            proof {
                assert(before.drop_last() =~= events_of(rest@));
                assert(before.last() == ev);
                assert(all.take(rest@.len() as int) =~= before.drop_last());
            }
            match e {
                MarketEvent::Ignored => {},
                _ => {
                    back.push(e);
                    proof {
                        assert(events_of(back@) =~= was.push(ev));
                        assert(consumed(before) == consumed(before.drop_last()).push(ev));
                        assert(was.push(ev).reverse() =~= seq![ev] + was.reverse());
                    }
                },
            }
            assert(consumed(all) =~= consumed(events_of(rest@)) + events_of(back@).reverse());
        }
    }
    let mut r: Vec<MarketEvent> = Vec::new();
    let ghost want = events_of(back@).reverse();
    proof {
        assert(events_of(rest@) =~= Seq::<EventView>::empty());
        assert(consumed(all) =~= want);
    }
    while back.len() > 0
        invariant
            consumed(all) == want,
            events_of(r@) + events_of(back@).reverse() == want,
        decreases back@.len(),
    {
        let ghost b0 = events_of(back@);
        let ghost r0 = events_of(r@);
        if let Some(e) = back.pop() {
            let ghost ev = e@;
            r.push(e);
            proof {
                assert(b0 =~= events_of(back@).push(ev));
                assert(b0.reverse() =~= seq![ev] + events_of(back@).reverse());
                assert(events_of(r@) =~= r0.push(ev));
                assert(events_of(r@) + events_of(back@).reverse() =~= r0 + b0.reverse());
            }
        }
    }
    assert(events_of(r@) =~= want);
    r
}

/// What a frame of text leads to.
fn on_text<P: Protocol>(p: &mut P, text: &str, rx: RxStamp) -> (r: Reaction)
    ensures
        (final(p).state(), r@) == text_next::<P>(old(p).state(), text@, rx),
{
    let ghost s0 = p.state();
    let mut out: Vec<MarketEvent> = Vec::new();
    assert(events_of(out@) =~= Seq::<EventView>::empty());
    let outcome = p.parse(text, rx, &mut out);
    let ghost parsed = P::parse_next(s0, text@, rx);
    assert(events_of(out@) =~= parsed.events);
    let mut r = nothing();
    let ghost none = r@;
    match outcome {
        Ok(_) => {
            r.events = keep_consumed(out);
        },
        Err(e) => {
            r.fault = Some(e);
        },
    }
    let ghost first = r@;
    assert(first =~= (match parsed.outcome {
        Ok(_) => ReactionShow { events: consumed(parsed.events), ..none },
        Err(e) => ReactionShow { fault: Some(e), ..none },
    }));
    if p.take_resync() {
        match p.resubscribe() {
            Some(msgs) => {
                r.send = msgs;
                r.if_unsent = Some(Ending::Unsubscribed);
                assert(r@ =~= (ReactionShow {
                    send: msgs.deep_view(),
                    if_unsent: Some(Ending::Unsubscribed),
                    ..first
                }));
            },
            None => {
                r.end = Some(Ending::Invalid);
                assert(r@ =~= (ReactionShow { end: Some(Ending::Invalid), ..first }));
            },
        }
    }
    r
}

/// What happens on a connection leads to this.
pub fn on_input<P: Protocol>(p: &mut P, e: Input<'_>) -> (r: Reaction)
    ensures
        (final(p).state(), r@) == session_next::<P>(old(p).state(), e),
{
    match e {
        Input::Shutdown => over(Ending::Shutdown, true),
        Input::Deadline => over(Ending::Rotation, true),
        Input::Resnapshot => {
            match p.resubscribe() {
                Some(msgs) => {
                    let mut r = nothing();
                    let ghost none = r@;
                    r.send = msgs;
                    r.if_unsent = Some(Ending::Unsubscribed);
                    assert(r@ =~= (ReactionShow {
                        send: msgs.deep_view(),
                        if_unsent: Some(Ending::Unsubscribed),
                        ..none
                    }));
                    r
                },
                None => over(Ending::Reconnect, true),
            }
        },
        Input::Beat => {
            let mut r = nothing();
            let ghost none = r@;
            if let Some((_, text)) = p.keepalive() {
                let mut send: Vec<String> = Vec::new();
                send.push(String::from_str(text));
                assert(send.deep_view() =~= seq![text@]);
                r.send = send;
                r.if_unsent = Some(Ending::NoBeat);
                assert(r@ =~= (ReactionShow {
                    send: seq![text@],
                    if_unsent: Some(Ending::NoBeat),
                    ..none
                }));
            }
            r
        },
        Input::Silence => over(Ending::Silent, false),
        Input::Closed => over(Ending::Closed, false),
        Input::Broken => over(Ending::Broken, false),
        Input::Text(t, rx) => on_text(p, t, rx),
        Input::Goodbye => over(Ending::Goodbye, false),
        Input::Other => nothing(),
    }
}

/// No event that nobody consumes is delivered, and a frame that could not be read delivers
/// none.
pub proof fn law_only_whole_frames_delivered<P: Protocol>(s: P::State, text: Seq<char>, rx: RxStamp)
    ensures
        ({
            let r = text_next::<P>(s, text, rx).1;
            &&& r.fault is Some ==> r.events.len() == 0
            &&& r.fault is Some <==> P::parse_next(s, text, rx).outcome is Err
            &&& forall|i: int| 0 <= i < r.events.len() ==> !(#[trigger] r.events[i] is Ignored)
        }),
{
    lemma_consumed(P::parse_next(s, text, rx).events);
}

proof fn lemma_consumed(v: Seq<EventView>)
    ensures
        forall|i: int| 0 <= i < consumed(v).len() ==> !(#[trigger] consumed(v)[i] is Ignored),
    decreases v.len(),
{
    if v.len() > 0 {
        lemma_consumed(v.drop_last());
    }
}

} // verus!

//! How a connection is kept, and how the fields of a message are found.

use crate::engine::latencies_next;
use crate::event::{EventView, RxStamp};
use crate::json::{
    bool_in, bool_or_false_in, field_of, given_of, i64_in, json_array, json_bool, json_i64,
    json_str, json_string, json_u64, list_in, list_or_empty_in, opt_bool_in, opt_str_in, opt_u64_in,
    pair_of, quad_of, raw_in, str_in, string_in, string_or_empty_in, u32_in, u64_in,
};
use crate::net::{blocks, policy_next, rotation_hours, LineAction, LineEvent, PolicyState, Protocol};
use crate::session::{consumed, session_next, text_next, Ending, Input};
use crate::snapshot::{longer, pause_of, resub_answer, resub_next, ResubState};
use crate::telemetry::{latency_next, LatencyState};
use vstd::prelude::*;

verus! {

/// A connection that is up is served, and what failed before is forgotten; one that ended
/// because the node does is the last; one that was rotated comes back at once.
pub proof fn law_line_goes_on(s: PolicyState)
    ensures
        ({
            let (t, a) = policy_next(s, LineEvent::Up);
            &&& a == LineAction::Serve && t.failures == 0 && t.backoff_ms == 250
            &&& t.idx == s.idx && t.urls == s.urls
        }),
        policy_next(s, LineEvent::Shutdown) == (s, LineAction::Stop),
        policy_next(s, LineEvent::Rotated) == (s, LineAction::Now),
{
}

/// A connection that was lost comes back after the wait in course; the next wait is twice as
/// long, up to half a minute. Its URL stays.
pub proof fn law_lost_line_waits_longer(s: PolicyState)
    requires
        250 <= s.backoff_ms <= 30_000,
    ensures
        ({
            let (t, a) = policy_next(s, LineEvent::Down);
            &&& policy_next(s, LineEvent::NotSubscribed) == (t, a)
            &&& a == LineAction::Wait(s.backoff_ms as u64)
            &&& s.backoff_ms <= 15_000 ==> t.backoff_ms == 2 * s.backoff_ms
            &&& s.backoff_ms > 15_000 ==> t.backoff_ms == 30_000
            &&& t.idx == s.idx && t.failures == s.failures && t.urls == s.urls
        }),
{
}

/// A failure to connect is counted and waits; the URL stays until the third in a row, unless
/// it is told to be blocked.
pub proof fn law_failures_are_counted(s: PolicyState, m: &str)
    requires
        250 <= s.backoff_ms <= 30_000,
        s.failures < 2,
    ensures
        ({
            let (t, a) = policy_next(s, LineEvent::TimedOut);
            &&& t.failures == s.failures + 1 && t.idx == s.idx && t.urls == s.urls
            &&& a == LineAction::Wait(s.backoff_ms as u64)
            &&& s.backoff_ms <= 15_000 ==> t.backoff_ms == 2 * s.backoff_ms
        }),
        !blocks(m@) ==> ({
            let (t, a) = policy_next(s, LineEvent::Refused(m));
            &&& t.failures == s.failures + 1 && t.idx == s.idx && t.urls == s.urls
            &&& a == LineAction::Wait(s.backoff_ms as u64)
        }),
        blocks(m@) && s.urls > 1 ==> ({
            let (t, a) = policy_next(s, LineEvent::Refused(m));
            &&& t.failures == 0
            &&& a == LineAction::Wait(250)
        }),
{
}

/// A line is rotated after its own hours: three less than the line before, from twenty-three
/// down to six.
pub proof fn law_lines_rotate_by_turns(line: u8)
    ensures
        rotation_hours(0) == 23,
        6 <= rotation_hours(line) <= 23,
        line < 5 ==> rotation_hours((line + 1) as u8) == rotation_hours(line) - 3,
        line >= 6 ==> rotation_hours(line) == 6,
{
}

/// What is nobody's is not delivered; all the rest is, in order.
pub proof fn law_what_is_consumed_is_delivered(v: Seq<EventView>)
    ensures
        consumed(v) == v.filter(|e: EventView| !(e is Ignored)),
    decreases v.len(),
{
    reveal(Seq::filter);
    if v.len() > 0 {
        law_what_is_consumed_is_delivered(v.drop_last());
    }
}

/// A frame that is read whole delivers what it tells; one that is not delivers nothing, and
/// says why.
pub proof fn law_frame_delivers_what_it_tells<P: Protocol>(s: P::State, text: Seq<char>, rx: RxStamp)
    ensures
        ({
            let p = P::parse_next(s, text, rx);
            let (t, r) = text_next::<P>(s, text, rx);
            &&& p.outcome is Ok ==> r.events == consumed(p.events) && r.fault is None
            &&& p.outcome matches Err(e) ==> r.events.len() == 0 && r.fault == Some(e)
            &&& !P::resync_next(p.state).1 ==> r.send.len() == 0 && r.end is None && t
                == P::resync_next(p.state).0
            &&& P::resync_next(p.state).1 ==> {
                let (u, msgs) = P::resubscribe_next(P::resync_next(p.state).0);
                &&& t == u
                &&& msgs matches Some(m) ==> r.send == m && r.end is None && r.if_unsent == Some(
                    Ending::Unsubscribed,
                )
                &&& msgs is None ==> r.end == Some(Ending::Invalid) && r.send.len() == 0
            }
        }),
{
}

/// A connection ends for the cause that ended it, with a closing frame where the node ends
/// it itself.
pub proof fn law_connection_ends_for_its_cause<P: Protocol>(s: P::State)
    ensures
        session_next::<P>(s, Input::Shutdown).1.end == Some(Ending::Shutdown),
        session_next::<P>(s, Input::Deadline).1.end == Some(Ending::Rotation),
        session_next::<P>(s, Input::Silence).1.end == Some(Ending::Silent),
        session_next::<P>(s, Input::Closed).1.end == Some(Ending::Closed),
        session_next::<P>(s, Input::Broken).1.end == Some(Ending::Broken),
        session_next::<P>(s, Input::Goodbye).1.end == Some(Ending::Goodbye),
        session_next::<P>(s, Input::Other).1.end is None,
        session_next::<P>(s, Input::Shutdown).1.close && session_next::<P>(
            s,
            Input::Deadline,
        ).1.close,
        !session_next::<P>(s, Input::Silence).1.close && !session_next::<P>(
            s,
            Input::Closed,
        ).1.close && !session_next::<P>(s, Input::Broken).1.close && !session_next::<P>(
            s,
            Input::Goodbye,
        ).1.close,
        session_next::<P>(s, Input::Other).1.send.len() == 0,
        P::heartbeat(s) is None ==> session_next::<P>(s, Input::Beat).1.send.len() == 0,
        P::heartbeat(s) matches Some(b) ==> {
            let r = session_next::<P>(s, Input::Beat).1;
            &&& r.send == seq![b.1] && r.end is None && r.if_unsent == Some(Ending::NoBeat)
        },
        P::resubscribe_next(s).1 is None ==> session_next::<P>(s, Input::Resnapshot).1.end == Some(
            Ending::Reconnect,
        ),
        P::resubscribe_next(s).1 matches Some(m) ==> {
            let r = session_next::<P>(s, Input::Resnapshot).1;
            &&& r.send == m && r.end is None && r.if_unsent == Some(Ending::Unsubscribed)
        },
{
}

/// Fetches keep a second between them, no more and no less; the first one does not wait.
pub proof fn law_fetch_waits_the_rest_of_a_second(last: u64, now: u64)
    requires
        last <= now,
    ensures
        pause_of(None, now) == 0,
        now - last >= 1000 ==> pause_of(Some(last), now) == 0,
        now - last < 1000 ==> pause_of(Some(last), now) == 1000 - (now - last),
{
}

/// A failed fetch waits twice as long as the one before, up to half a minute.
pub proof fn law_failed_fetch_waits_twice(backoff: u64)
    ensures
        backoff <= 15_000 ==> longer(backoff) == 2 * backoff,
        backoff > 15_000 ==> longer(backoff) == 30_000,
{
}

/// No line is told to subscribe again in the first three seconds, nor where there is none.
pub proof fn law_nobody_is_told_at_the_start(s: ResubState, now: u64)
    requires
        s.start <= now,
    ensures
        resub_answer(s, now) is None <==> now - s.start < 3000 || s.lines == 0,
        resub_answer(s, now) is None ==> resub_next(s, now) == s,
        resub_answer(s, now) matches Some((line, wait)) ==> line == s.turn && wait == pause_of(
            s.last,
            now,
        ),
        resub_answer(s, now) is Some && now < 0x1000_0000_0000_0000 ==> (resub_next(
            s,
            now,
        ).last matches Some(t) && t == now + pause_of(s.last, now)),
{
}

/// A latency is kept for its own line.
pub proof fn law_latency_is_of_its_line(v: Seq<LatencyState>, line: u8, us: i64)
    ensures
        latencies_next(v, line, us).len() == v.len(),
        forall|i: int|
            0 <= i < v.len() ==> #[trigger] latencies_next(v, line, us)[i] == (if i == line {
                latency_next(v[i], us)
            } else {
                v[i]
            }),
{
}

/// A field is found by its name, and is the first that has it.
pub proof fn law_field_is_found_by_name(f: Seq<(Seq<char>, Seq<char>)>, name: Seq<char>)
    ensures
        field_of(f, name) is None <==> forall|i: int|
            0 <= i < f.len() ==> (#[trigger] f[i]).0 != name,
        field_of(f, name) matches Some(v) ==> exists|i: int|
            0 <= i < f.len() && #[trigger] f[i] == (name, v) && forall|j: int|
                0 <= j < i ==> (#[trigger] f[j]).0 != name,
    decreases f.len(),
{
    if f.len() > 0 && f[0].0 != name {
        let r = f.skip(1);
        law_field_is_found_by_name(r, name);
        assert(forall|i: int| 0 <= i < r.len() ==> r[i] == f[i + 1]);
        if field_of(r, name) is Some {
            let v = field_of(r, name)->0;
            let i = choose|i: int|
                0 <= i < r.len() && #[trigger] r[i] == (name, v) && forall|j: int|
                    0 <= j < i ==> (#[trigger] r[j]).0 != name;
            assert(f[i + 1] == (name, v));
            assert forall|j: int| 0 <= j < i + 1 implies (#[trigger] f[j]).0 != name by {
                if j > 0 {
                    assert(r[j - 1] == f[j]);
                }
            }
        } else {
            assert forall|i: int| 0 <= i < f.len() implies (#[trigger] f[i]).0 != name by {
                if i > 0 {
                    assert(r[i - 1] == f[i]);
                }
            }
        }
    } else if f.len() > 0 {
        assert(f[0] == (name, f[0].1));
    }
}

/// A field that must be there is read as what it is; one that is not there is missed.
pub proof fn law_needed_fields_are_read(f: Seq<(Seq<char>, Seq<char>)>, name: Seq<char>)
    ensures
        field_of(f, name) is None ==> raw_in(f, name) is Err && str_in(f, name) is Err
            && string_in(f, name) is Err && u64_in(f, name) is Err && u32_in(f, name) is Err
            && i64_in(f, name) is Err && bool_in(f, name) is Err && list_in(f, name) is Err,
        field_of(f, name) matches Some(v) ==> {
            &&& raw_in(f, name) == Ok::<Seq<char>, Seq<char>>(v)
            &&& str_in(f, name) == json_str(v)
            &&& string_in(f, name) == json_string(v)
            &&& u64_in(f, name) == json_u64(v)
            &&& i64_in(f, name) == json_i64(v)
            &&& bool_in(f, name) == json_bool(v)
            &&& list_in(f, name) == json_array(v)
            &&& string_or_empty_in(f, name) == json_string(v)
            &&& bool_or_false_in(f, name) == json_bool(v)
            &&& list_or_empty_in(f, name) == json_array(v)
            &&& u32_in(f, name) matches Ok(n) ==> (json_u64(v) matches Ok(m) && m == n)
            &&& json_u64(v) matches Ok(m) ==> (u32_in(f, name) is Ok <==> m <= u32::MAX)
        },
{
}

/// A field that may be absent, and is, or is `null`, counts as nothing.
pub proof fn law_absent_fields_count_as_nothing(f: Seq<(Seq<char>, Seq<char>)>, name: Seq<char>)
    ensures
        field_of(f, name) is None ==> {
            &&& string_or_empty_in(f, name) matches Ok(t) && t.len() == 0
            &&& bool_or_false_in(f, name) == Ok::<bool, Seq<char>>(false)
            &&& list_or_empty_in(f, name) matches Ok(t) && t.len() == 0
        },
        field_of(f, name) is None || field_of(f, name) == Some("null"@) ==> {
            &&& given_of(f, name) is None
            &&& opt_str_in(f, name) matches Ok(x) && x is None
            &&& opt_u64_in(f, name) matches Ok(x) && x is None
            &&& opt_bool_in(f, name) matches Ok(x) && x is None
        },
        field_of(f, name) matches Some(v) ==> (v != "null"@ ==> {
            &&& given_of(f, name) == Some(v)
            &&& opt_str_in(f, name) is Ok <==> json_str(v) is Ok
            &&& opt_u64_in(f, name) is Ok <==> json_u64(v) is Ok
            &&& opt_bool_in(f, name) is Ok <==> json_bool(v) is Ok
            &&& json_str(v) matches Ok(x) ==> (opt_str_in(f, name) matches Ok(y) && y == Some(x))
            &&& json_u64(v) matches Ok(x) ==> (opt_u64_in(f, name) matches Ok(y) && y == Some(x))
            &&& json_bool(v) matches Ok(x) ==> (opt_bool_in(f, name) matches Ok(y) && y == Some(x))
        }),
{
}

/// A level is a price and then a quantity: the two texts of a pair, or the first two of four.
pub proof fn law_level_is_price_and_quantity(text: Seq<char>)
    ensures
        pair_of(text) matches Ok((p, q)) ==> (json_array(text) matches Ok(v) && v.len() == 2
            && json_str(v[0]) == Ok::<Seq<char>, Seq<char>>(p) && json_str(v[1]) == Ok::<
            Seq<char>,
            Seq<char>,
        >(q)),
        quad_of(text) matches Ok((p, q)) ==> (json_array(text) matches Ok(v) && v.len() == 4
            && json_str(v[0]) == Ok::<Seq<char>, Seq<char>>(p) && json_str(v[1]) == Ok::<
            Seq<char>,
            Seq<char>,
        >(q)),
        json_array(text) matches Ok(v) ==> (v.len() == 2 && json_str(v[0]) is Ok && json_str(v[1])
            is Ok ==> pair_of(text) is Ok),
{
}

} // verus!

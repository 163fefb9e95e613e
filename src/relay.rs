//! Decisions of the relay loop between two paired connections.
//!
//! The loop that waits on both connections and on a periodic tick lives with
//! the I/O; it hands each event to [`Relay::step`] and performs the action
//! that comes back. Frames are forwarded verbatim to the other side, empty
//! frames are keep-alives, and a session without any frame for more than
//! [`IDLE_LIMIT_SECS`] whole seconds ends on the next tick.

use vstd::prelude::*;

verus! {

/// Whole seconds without a received frame after which a tick ends the session.
pub const IDLE_LIMIT_SECS: u64 = 30;

/// Interval of the periodic idle check, in milliseconds.
pub const TICK_MILLIS: u64 = 3000;

/// One of the two relayed connections.
#[derive(PartialEq, Eq, Structural, Clone, Copy, Debug)]
pub enum Side {
    /// The connection that arrived second and runs the relay.
    A,
    /// The partner that was waiting in the pairing table.
    B,
}

/// How a relayed session ended.
#[derive(PartialEq, Eq, Structural, Clone, Copy, Debug)]
pub enum RelayEnd {
    /// A side closed its stream or failed to read.
    Closed,
    /// Forwarding to a side failed.
    Failed,
    /// No frame arrived from either side for too long.
    TimedOut,
}

/// Something that happened to a relayed session.
pub enum RelayEvent {
    /// A frame arrived from `from` at `now_ms` milliseconds.
    Frame { from: Side, bytes: Vec<u8>, now_ms: u64 },
    /// The stream of `side` ended, or reading from it failed.
    Ended { side: Side },
    /// Sending to `to` failed.
    SendFailed { to: Side },
    /// The periodic check, at `now_ms` milliseconds.
    Tick { now_ms: u64 },
}

/// What the loop does next.
pub enum RelayAction {
    /// Send `bytes` to `to`, unchanged.
    Forward { to: Side, bytes: Vec<u8> },
    /// Nothing to do; wait for the next event.
    Idle,
    /// Stop relaying and close both connections.
    Stop(RelayEnd),
}

/// The state of one relayed session.
pub struct Relay {
    last_recv_ms: u64,
    end: Option<RelayEnd>,
}

/// The side opposite `s`.
pub open spec fn other_side(s: Side) -> Side {
    match s {
        Side::A => Side::B,
        Side::B => Side::A,
    }
}

/// More than the idle limit, in whole seconds, has passed since `last` at `now`.
pub open spec fn idle_expired(last: u64, now: u64) -> bool {
    now >= last && (now - last) / 1000 > IDLE_LIMIT_SECS as int
}

impl Relay {
    /// Time of the last frame received from either side, in milliseconds.
    pub closed spec fn last_recv_spec(&self) -> u64 {
        self.last_recv_ms
    }

    /// How the session ended; `None` while it is relaying.
    pub closed spec fn end_spec(&self) -> Option<RelayEnd> {
        self.end
    }

    /// The state and the action after `ev`. An ended session stays ended and
    /// repeats how it ended.
    pub open spec fn step_spec(self, ev: RelayEvent) -> (Relay, RelayAction) {
        let last = self.last_recv_spec();
        match self.end_spec() {
            Some(e) => (self, RelayAction::Stop(e)),
            None => match ev {
                RelayEvent::Frame { from, bytes, now_ms } => {
                    let next = Relay::relaying_spec(now_ms);
                    if bytes@.len() == 0 {
                        (next, RelayAction::Idle)
                    } else {
                        (next, RelayAction::Forward { to: other_side(from), bytes })
                    }
                },
                RelayEvent::Ended { .. } => (
                    Relay::ended_spec(last, RelayEnd::Closed),
                    RelayAction::Stop(RelayEnd::Closed),
                ),
                RelayEvent::SendFailed { .. } => (
                    Relay::ended_spec(last, RelayEnd::Failed),
                    RelayAction::Stop(RelayEnd::Failed),
                ),
                RelayEvent::Tick { now_ms } => if idle_expired(last, now_ms) {
                    (Relay::ended_spec(last, RelayEnd::TimedOut), RelayAction::Stop(RelayEnd::TimedOut))
                } else {
                    (self, RelayAction::Idle)
                },
            },
        }
    }

    /// A relaying session whose last frame came at `last`.
    pub closed spec fn relaying_spec(last: u64) -> Relay {
        Relay { last_recv_ms: last, end: None }
    }

    /// A session that ended as `e`, its last frame having come at `last`.
    pub closed spec fn ended_spec(last: u64, e: RelayEnd) -> Relay {
        Relay { last_recv_ms: last, end: Some(e) }
    }

    /// What a relaying session shows of itself.
    pub proof fn lemma_relaying(last: u64)
        ensures
            Relay::relaying_spec(last).last_recv_spec() == last,
            Relay::relaying_spec(last).end_spec() is None,
    {
    }

    /// What an ended session shows of itself.
    pub proof fn lemma_ended(last: u64, e: RelayEnd)
        ensures
            Relay::ended_spec(last, e).last_recv_spec() == last,
            Relay::ended_spec(last, e).end_spec() == Some(e),
    {
    }

    /// A session that starts relaying at `now_ms`.
    pub fn new(now_ms: u64) -> (r: Relay)
        ensures
            r == Relay::relaying_spec(now_ms),
    {
        Relay { last_recv_ms: now_ms, end: None }
    }

    /// Time of the last frame received from either side, in milliseconds.
    pub fn last_recv_ms(&self) -> (r: u64)
        ensures
            r == self.last_recv_spec(),
    {
        self.last_recv_ms
    }

    /// How the session ended; `None` while it is relaying.
    pub fn end(&self) -> (r: Option<RelayEnd>)
        ensures
            r == self.end_spec(),
    {
        self.end
    }

    /// Takes in one event and says what to do about it.
    pub fn step(&mut self, ev: RelayEvent) -> (r: RelayAction)
        ensures
            (*final(self), r) == old(self).step_spec(ev),
    {
        if let Some(e) = self.end {
            return RelayAction::Stop(e);
        }
        match ev {
            RelayEvent::Frame { from, bytes, now_ms } => {
                self.last_recv_ms = now_ms;
                if bytes.len() == 0 {
                    RelayAction::Idle
                } else {
                    let to = match from {
                        Side::A => Side::B,
                        Side::B => Side::A,
                    };
                    RelayAction::Forward { to, bytes }
                }
            },
            RelayEvent::Ended { .. } => {
                self.end = Some(RelayEnd::Closed);
                RelayAction::Stop(RelayEnd::Closed)
            },
            RelayEvent::SendFailed { .. } => {
                self.end = Some(RelayEnd::Failed);
                RelayAction::Stop(RelayEnd::Failed)
            },
            RelayEvent::Tick { now_ms } => {
                if now_ms >= self.last_recv_ms && (now_ms - self.last_recv_ms) / 1000
                    > IDLE_LIMIT_SECS {
                    self.end = Some(RelayEnd::TimedOut);
                    RelayAction::Stop(RelayEnd::TimedOut)
                } else {
                    RelayAction::Idle
                }
            },
        }
    }
}

/// The actions that a session takes for a sequence of events, in order.
pub open spec fn run(r: Relay, evs: Seq<RelayEvent>) -> Seq<RelayAction>
    decreases evs.len(),
{
    if evs.len() == 0 {
        Seq::empty()
    } else {
        let (next, act) = r.step_spec(evs[0]);
        seq![act] + run(next, evs.drop_first())
    }
}

/// The payloads that a sequence of actions sends to `to`, in order.
pub open spec fn forwarded_to(acts: Seq<RelayAction>, to: Side) -> Seq<Seq<u8>>
    decreases acts.len(),
{
    if acts.len() == 0 {
        Seq::empty()
    } else {
        let rest = forwarded_to(acts.drop_first(), to);
        match acts[0] {
            RelayAction::Forward { to: t, bytes } => if t == to {
                seq![bytes@] + rest
            } else {
                rest
            },
            _ => rest,
        }
    }
}

/// The non-empty payloads that arrive from `from` in a sequence of events, in order.
pub open spec fn payloads_from(evs: Seq<RelayEvent>, from: Side) -> Seq<Seq<u8>>
    decreases evs.len(),
{
    if evs.len() == 0 {
        Seq::empty()
    } else {
        let rest = payloads_from(evs.drop_first(), from);
        match evs[0] {
            RelayEvent::Frame { from: f, bytes, .. } => if f == from && bytes@.len() > 0 {
                seq![bytes@] + rest
            } else {
                rest
            },
            _ => rest,
        }
    }
}

/// While a session relays frames, the other side is sent exactly the
/// non-empty payloads that one side sent, byte for byte and in the order
/// they came; keep-alive frames are not passed on.
pub proof fn lemma_payloads_forwarded_verbatim(r: Relay, evs: Seq<RelayEvent>, from: Side)
    requires
        r.end_spec() is None,
        forall|i: int| 0 <= i < evs.len() ==> #[trigger] evs[i] is Frame,
    ensures
        forwarded_to(run(r, evs), other_side(from)) == payloads_from(evs, from),
    decreases evs.len(),
{
    if evs.len() > 0 {
        let (next, act) = r.step_spec(evs[0]);
        let rest = evs.drop_first();
        assert(evs[0] is Frame);
        if let RelayEvent::Frame { now_ms, .. } = evs[0] {
            Relay::lemma_relaying(now_ms);
        }
        assert forall|i: int| 0 <= i < rest.len() implies #[trigger] rest[i] is Frame by {
            assert(rest[i] == evs[i + 1]);
        }
        lemma_payloads_forwarded_verbatim(next, rest, from);
        let acts = run(r, evs);
        assert(acts[0] == act);
        assert(acts.drop_first() =~= run(next, rest));
    }
}

/// A relaying session with no frame from either side for more than the idle
/// limit ends on the next tick with a timeout, and stays ended whatever comes
/// after.
pub proof fn lemma_idle_session_times_out(r: Relay, now: u64, later: RelayEvent)
    requires
        r.end_spec() is None,
        idle_expired(r.last_recv_spec(), now),
    ensures
        ({
            let (next, act) = r.step_spec(RelayEvent::Tick { now_ms: now });
            &&& act == RelayAction::Stop(RelayEnd::TimedOut)
            &&& next.end_spec() == Some(RelayEnd::TimedOut)
            &&& next.step_spec(later) == (next, RelayAction::Stop(RelayEnd::TimedOut))
        }),
{
    Relay::lemma_ended(r.last_recv_spec(), RelayEnd::TimedOut);
}

/// A frame, keep-alive or not, puts the idle end off: a tick less than the
/// idle limit plus one second after it leaves the session relaying.
pub proof fn lemma_frame_defers_timeout(r: Relay, from: Side, bytes: Vec<u8>, t: u64, d: u64)
    requires
        r.end_spec() is None,
        d < (IDLE_LIMIT_SECS + 1) * 1000,
        t + d <= u64::MAX,
    ensures
        ({
            let after = r.step_spec(RelayEvent::Frame { from, bytes, now_ms: t }).0;
            &&& after.end_spec() is None
            &&& after.step_spec(RelayEvent::Tick { now_ms: (t + d) as u64 }) == (
            after,
            RelayAction::Idle,
            )
        }),
{
    Relay::lemma_relaying(t);
    assert(((t + d) as u64 - t) / 1000 <= IDLE_LIMIT_SECS) by (nonlinear_arith)
        requires
            d < (IDLE_LIMIT_SECS + 1) * 1000,
            t + d <= u64::MAX,
    ;
}

} // verus!

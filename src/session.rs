//! The decisions of a session with the broker: its connection state, the
//! packet identifiers of requests awaiting acknowledgement, and when a
//! keep-alive ping is due. The I/O that carries these out is the caller's.

use vstd::prelude::*;

use crate::error::{reason_code_of, ConnectReasonCode, MqttError, ProtocolError};

verus! {

/// Where a session stands in its lifecycle.
#[derive(Debug, Clone, Copy, PartialEq, Eq, Structural)]
pub enum SessionState {
    Disconnected,
    /// A CONNECT was sent; its CONNACK is awaited.
    Connecting,
    Connected,
}

/// What a session holds.
pub ghost struct SessionView {
    pub state: SessionState,
    pub keep_alive_ms: u64,
    pub last_sent_ms: u64,
    pub in_flight: Seq<u16>,
}

/// A session's state, with at most `MAX_IN_FLIGHT` requests awaiting
/// acknowledgement, each under an identifier unique among them.
pub struct Session<const MAX_IN_FLIGHT: usize> {
    state: SessionState,
    keep_alive_ms: u64,
    last_sent_ms: u64,
    in_flight: Vec<u16>,
}

/// The smallest nonzero identifier not in `ids`, if any.
pub open spec fn is_smallest_free(ids: Seq<u16>, id: u16) -> bool {
    &&& id >= 1
    &&& !ids.contains(id)
    &&& forall|j: u16| 1 <= j < id ==> ids.contains(j)
}

impl<const MAX_IN_FLIGHT: usize> View for Session<MAX_IN_FLIGHT> {
    type V = SessionView;

    closed spec fn view(&self) -> SessionView {
        SessionView {
            state: self.state,
            keep_alive_ms: self.keep_alive_ms,
            last_sent_ms: self.last_sent_ms,
            in_flight: self.in_flight@,
        }
    }
}

impl<const MAX_IN_FLIGHT: usize> Session<MAX_IN_FLIGHT> {
    /// The identifiers in flight are nonzero, distinct and at most
    /// `MAX_IN_FLIGHT` in number.
    pub open spec fn wf(&self) -> bool {
        &&& self@.in_flight.len() <= MAX_IN_FLIGHT
        &&& self@.in_flight.no_duplicates()
        &&& !self@.in_flight.contains(0u16)
    }

    /// A disconnected session whose keep-alive interval is
    /// `keep_alive_secs` seconds; zero turns keep-alive off.
    pub fn new(keep_alive_secs: u16) -> (r: Self)
        ensures
            r.wf(),
            r@.state == SessionState::Disconnected,
            r@.keep_alive_ms == keep_alive_secs as u64 * 1000,
            r@.last_sent_ms == 0,
            r@.in_flight == Seq::<u16>::empty(),
    {
        let r = Session {
            state: SessionState::Disconnected,
            keep_alive_ms: keep_alive_secs as u64 * 1000,
            last_sent_ms: 0,
            in_flight: Vec::new(),
        };
        assert(r@.in_flight =~= Seq::<u16>::empty());
        r
    }

    /// The session's state.
    pub fn state(&self) -> (r: SessionState)
        ensures
            r == self@.state,
    {
        self.state
    }

    /// Records that a CONNECT was sent at `now`: the session starts over,
    /// awaiting its CONNACK, with nothing in flight.
    pub fn start_connect(&mut self, now: u64)
        ensures
            final(self).wf(),
            final(self)@ == (SessionView {
                state: SessionState::Connecting,
                last_sent_ms: now,
                in_flight: Seq::<u16>::empty(),
                ..old(self)@
            }),
    {
        self.state = SessionState::Connecting;
        self.last_sent_ms = now;
        self.in_flight.clear();
        assert(self@.in_flight =~= Seq::<u16>::empty());
    }

    /// Takes the reason code of a CONNACK. While connecting, code 0 connects
    /// the session and any other code refuses it, with the code's reason, and
    /// the session is disconnected. In any other state a CONNACK is an
    /// invalid response and changes nothing.
    pub fn on_connack<T>(&mut self, reason_code: u8) -> (r: Result<(), MqttError<T>>)
        ensures
            old(self)@.state != SessionState::Connecting ==> r == Err::<(), MqttError<T>>(
                MqttError::Protocol(ProtocolError::InvalidResponse),
            ) && final(self)@ == old(self)@,
            old(self)@.state == SessionState::Connecting && reason_code == 0 ==> r is Ok
                && final(self)@ == (SessionView { state: SessionState::Connected, ..old(self)@ }),
            old(self)@.state == SessionState::Connecting && reason_code != 0 ==> r == Err::<
                (),
                MqttError<T>,
            >(MqttError::ConnectionRefused(reason_code_of(reason_code))) && final(self)@ == (
            SessionView { state: SessionState::Disconnected, ..old(self)@ }),
            old(self).wf() ==> final(self).wf(),
    {
        if self.state != SessionState::Connecting {
            return Err(MqttError::Protocol(ProtocolError::InvalidResponse));
        }
        if reason_code == 0 {
            self.state = SessionState::Connected;
            Ok(())
        } else {
            self.state = SessionState::Disconnected;
            Err(MqttError::ConnectionRefused(ConnectReasonCode::from(reason_code)))
        }
    }

    /// Fails with `NotConnected` unless the session is connected.
    pub fn ensure_connected<T>(&self) -> (r: Result<(), MqttError<T>>)
        ensures
            self@.state == SessionState::Connected ==> r is Ok,
            self@.state != SessionState::Connected ==> r == Err::<(), MqttError<T>>(
                MqttError::NotConnected,
            ),
    {
        if self.state == SessionState::Connected {
            Ok(())
        } else {
            Err(MqttError::NotConnected)
        }
    }

    fn is_in_flight(&self, id: u16) -> (r: bool)
        ensures
            r == self@.in_flight.contains(id),
    {
        let mut i: usize = 0;
        while i < self.in_flight.len()
            invariant
                i <= self.in_flight@.len(),
                forall|j: int| 0 <= j < i ==> self.in_flight@[j] != id,
            decreases self.in_flight@.len() - i,
        {
            if self.in_flight[i] == id {
                return true;
            }
            i = i + 1;
        }
        false
    }

    /// Assigns the smallest nonzero identifier not in flight to a new request
    /// and records it as in flight. `None`, with nothing changed, where
    /// `MAX_IN_FLIGHT` requests are in flight or every identifier is.
    pub fn allocate_id(&mut self) -> (r: Option<u16>)
        requires
            old(self).wf(),
        ensures
            final(self).wf(),
            old(self)@.in_flight.len() >= MAX_IN_FLIGHT ==> r is None,
            old(self)@.in_flight.len() < MAX_IN_FLIGHT && (exists|id: u16|
                is_smallest_free(old(self)@.in_flight, id)) ==> r is Some,
            r is Some ==> is_smallest_free(old(self)@.in_flight, r->Some_0) && final(self)@ == (
            SessionView { in_flight: old(self)@.in_flight.push(r->Some_0), ..old(self)@ }),
            r is None ==> final(self)@ == old(self)@,
    {
        if self.in_flight.len() >= MAX_IN_FLIGHT {
            return None;
        }
        let mut candidate: u16 = 1;
        loop
            invariant
                1 <= candidate,
                forall|j: u16| 1 <= j < candidate ==> self@.in_flight.contains(j),
                self.wf(),
                self@ == old(self)@,
                self@.in_flight.len() < MAX_IN_FLIGHT,
            decreases 65536 - candidate,
        {
            if !self.is_in_flight(candidate) {
                let ghost before = self@;
                self.in_flight.push(candidate);
                proof {
                    assert(self@.in_flight == before.in_flight.push(candidate));
                    assert forall|a: int, b: int|
                        0 <= a < b < self@.in_flight.len() implies self@.in_flight[a]
                        != self@.in_flight[b] by {
                        if b == self@.in_flight.len() - 1 {
                            assert(before.in_flight.contains(self@.in_flight[a]));
                        }
                    }
                    assert forall|x: u16| self@.in_flight.contains(x) implies x != 0 by {
                        let k = choose|k: int| 0 <= k < self@.in_flight.len() && self@.in_flight[k] == x;
                        if k < before.in_flight.len() {
                            assert(before.in_flight[k] == x);
                        }
                    }
                }
                return Some(candidate);
            }
            if candidate == 65535 {
                proof {
                    assert forall|id: u16| !is_smallest_free(old(self)@.in_flight, id) by {
                        if id >= 1 && id < candidate {
                            assert(old(self)@.in_flight.contains(id));
                        }
                    }
                }
                return None;
            }
            candidate = candidate + 1;
        }
    }

    /// Takes the acknowledgement of request `id`: `true`, and the identifier
    /// no longer in flight, where it was; `false`, with nothing changed,
    /// where no request awaits it.
    pub fn acknowledge(&mut self, id: u16) -> (r: bool)
        requires
            old(self).wf(),
        ensures
            final(self).wf(),
            r == old(self)@.in_flight.contains(id),
            r ==> exists|k: int|
                0 <= k < old(self)@.in_flight.len() && old(self)@.in_flight[k] == id
                    && final(self)@ == (SessionView {
                    in_flight: old(self)@.in_flight.remove(k),
                    ..old(self)@
                }),
            !r ==> final(self)@ == old(self)@,
    {
        let mut i: usize = 0;
        while i < self.in_flight.len()
            invariant
                i <= self.in_flight@.len(),
                self@ == old(self)@,
                self.wf(),
                forall|j: int| 0 <= j < i ==> self.in_flight@[j] != id,
            decreases self.in_flight@.len() - i,
        {
            if self.in_flight[i] == id {
                let ghost before = self.in_flight@;
                proof {
                    assert(before[i as int] == id);
                    assert(before.no_duplicates());
                }
                self.in_flight.remove(i);
                proof {
                    assert(self.in_flight@ == before.remove(i as int));
                    assert(self@.in_flight == before.remove(i as int));
                    assert forall|a: int, b: int|
                        0 <= a < b < self@.in_flight.len() implies self@.in_flight[a]
                        != self@.in_flight[b] by {
                        let a0 = if a < i { a } else { a + 1 };
                        let b0 = if b < i { b } else { b + 1 };
                        assert(self@.in_flight[a] == before[a0]);
                        assert(self@.in_flight[b] == before[b0]);
                    }
                    assert forall|x: u16| self@.in_flight.contains(x) implies x != 0 by {
                        let k = choose|k: int| 0 <= k < self@.in_flight.len() && self@.in_flight[k] == x;
                        let k0 = if k < i { k } else { k + 1 };
                        assert(before[k0] == x);
                        assert(before.contains(x));
                    }
                    assert(self@ == (SessionView {
                        in_flight: old(self)@.in_flight.remove(i as int),
                        ..old(self)@
                    }));
                }
                return true;
            }
            i = i + 1;
        }
        false
    }

    /// The number of requests in flight.
    pub fn in_flight_count(&self) -> (r: usize)
        ensures
            r == self@.in_flight.len(),
    {
        self.in_flight.len()
    }

    /// Records that a packet was sent at `now`.
    pub fn record_sent(&mut self, now: u64)
        ensures
            final(self)@ == (SessionView { last_sent_ms: now, ..old(self)@ }),
            old(self).wf() ==> final(self).wf(),
    {
        self.last_sent_ms = now;
    }

    /// Whether a PINGREQ is due at `now`: the session is connected,
    /// keep-alive is on, and nothing was sent for a whole interval.
    pub fn ping_due(&self, now: u64) -> (r: bool)
        ensures
            r == (self@.state == SessionState::Connected && self@.keep_alive_ms > 0 && now
                >= self@.last_sent_ms + self@.keep_alive_ms),
    {
        self.state == SessionState::Connected && self.keep_alive_ms > 0 && now
            >= self.last_sent_ms && now - self.last_sent_ms >= self.keep_alive_ms
    }

    /// Ends the session, whether by a DISCONNECT or by losing the
    /// connection: it is disconnected with nothing in flight.
    pub fn disconnect(&mut self)
        ensures
            final(self).wf(),
            final(self)@ == (SessionView {
                state: SessionState::Disconnected,
                in_flight: Seq::<u16>::empty(),
                ..old(self)@
            }),
    {
        self.state = SessionState::Disconnected;
        self.in_flight.clear();
        assert(self@.in_flight =~= Seq::<u16>::empty());
    }
}

} // verus!

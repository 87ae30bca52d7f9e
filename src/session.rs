//! The per-device session state machine: a function of (state, event, time) to
//! (next state, actions), tracking unacknowledged packet identifiers.
//!
//! Time is a plain millisecond count on a clock that the caller chooses; the machine
//! has no timer of its own and reacts to `Timeout` events only.
use vstd::prelude::*;
use crate::protocol::AVLPacket;

verus! {

/// Stages of a session.
#[derive(Debug, Clone, Copy, PartialEq, Eq, Structural)]
pub enum ProtocolState {
    Disconnected,
    Connected,
    Authenticating,
    Ready,
    Error,
}

/// What can happen during a session.
#[derive(Debug, Clone, PartialEq)]
pub enum ProtocolEvent {
    Connect,
    Disconnect,
    ConnectionLost,
    PacketReceived(AVLPacket),
    PacketSent(u32),
    AcknowledgementReceived(u32),
    /// A device's identity and credential.
    Authenticate(String, String),
    AuthSuccess,
    AuthFailure,
    Timeout,
    InvalidPacket,
    ProtocolError(String),
}

/// What the session asks the surrounding system to do.
#[derive(Debug, Clone, Copy, PartialEq, Eq, Structural)]
pub enum ProtocolAction {
    SendAcknowledgement(u32),
    RequestRetransmission(u32),
    DisconnectClient,
    SendAuthResponse(bool),
    ResetConnection,
}

/// The state after an event, and the actions it calls for, in order.
#[derive(Debug)]
pub struct ProtocolResult {
    pub state: ProtocolState,
    pub actions: Vec<ProtocolAction>,
}

/// One session. Pending entries pair a packet identifier (the packet's checksum) with
/// the time it was first seen.
pub struct StateMachine {
    state: ProtocolState,
    last_ack: u32,
    pending_packets: Vec<(u32, u64)>,
    timeout_ms: u64,
    imei: Option<String>,
}

pub struct SessionView {
    pub state: ProtocolState,
    pub last_ack: u32,
    pub pending: Seq<(u32, u64)>,
    pub timeout: u64,
    pub imei: Option<Seq<char>>,
}

impl View for StateMachine {
    type V = SessionView;

    closed spec fn view(&self) -> SessionView {
        SessionView {
            state: self.state,
            last_ack: self.last_ack,
            pending: self.pending_packets@,
            timeout: self.timeout_ms,
            imei: match self.imei {
                Some(s) => Some(s@),
                None => None,
            },
        }
    }
}

/// The identifier that follows `id` (wrapping).
pub open spec fn next_id(id: u32) -> u32 {
    if id == u32::MAX {
        0
    } else {
        (id + 1) as u32
    }
}

/// How many pending entries carry `id`.
pub open spec fn count_id(p: Seq<(u32, u64)>, id: u32) -> nat
    decreases p.len(),
{
    if p.len() == 0 {
        0
    } else {
        count_id(p.drop_last(), id) + if p.last().0 == id {
            1nat
        } else {
            0nat
        }
    }
}

/// No identifier is pending twice.
pub open spec fn ids_distinct(p: Seq<(u32, u64)>) -> bool
    decreases p.len(),
{
    p.len() == 0 || (ids_distinct(p.drop_last()) && count_id(p.drop_last(), p.last().0) == 0)
}

/// The entries whose identifier is not `id`, in order.
pub open spec fn without_id(p: Seq<(u32, u64)>, id: u32) -> Seq<(u32, u64)>
    decreases p.len(),
{
    if p.len() == 0 {
        p
    } else if p.last().0 == id {
        without_id(p.drop_last(), id)
    } else {
        without_id(p.drop_last(), id).push(p.last())
    }
}

/// An entry first seen at `e.1` is older than `timeout` at time `now`.
pub open spec fn expired(e: (u32, u64), now: u64, timeout: u64) -> bool {
    now as int - e.1 as int > timeout as int
}

/// The entries that have not expired at `now`, in order.
pub open spec fn unexpired(p: Seq<(u32, u64)>, now: u64, timeout: u64) -> Seq<(u32, u64)>
    decreases p.len(),
{
    if p.len() == 0 {
        p
    } else if expired(p.last(), now, timeout) {
        unexpired(p.drop_last(), now, timeout)
    } else {
        unexpired(p.drop_last(), now, timeout).push(p.last())
    }
}

/// One retransmission request per entry that has expired at `now`, in order.
pub open spec fn retransmissions(p: Seq<(u32, u64)>, now: u64, timeout: u64) -> Seq<
    ProtocolAction,
>
    decreases p.len(),
{
    if p.len() == 0 {
        Seq::empty()
    } else if expired(p.last(), now, timeout) {
        retransmissions(p.drop_last(), now, timeout).push(
            ProtocolAction::RequestRetransmission(p.last().0),
        )
    } else {
        retransmissions(p.drop_last(), now, timeout)
    }
}

/// How many times `a` occurs in `acts`.
pub open spec fn occurrences(acts: Seq<ProtocolAction>, a: ProtocolAction) -> nat
    decreases acts.len(),
{
    if acts.len() == 0 {
        0
    } else {
        occurrences(acts.drop_last(), a) + if acts.last() == a {
            1nat
        } else {
            0nat
        }
    }
}

/// An event that the current state does not expect: the session fails and asks for
/// the client to be disconnected.
pub open spec fn reject(s: SessionView) -> (SessionView, Seq<ProtocolAction>) {
    (SessionView { state: ProtocolState::Error, ..s }, seq![ProtocolAction::DisconnectClient])
}

/// A packet arriving in a ready session: acknowledge it, track its identifier if new,
/// and request the earliest missing identifier if it is not the next one expected.
pub open spec fn on_packet(s: SessionView, id: u32, now: u64) -> (SessionView, Seq<ProtocolAction>) {
    let pending = if count_id(s.pending, id) > 0 {
        s.pending
    } else {
        s.pending.push((id, now))
    };
    let expected = next_id(s.last_ack);
    if id == expected {
        (
            SessionView { pending, last_ack: id, ..s },
            seq![ProtocolAction::SendAcknowledgement(id)],
        )
    } else {
        (
            SessionView { pending, ..s },
            seq![
                ProtocolAction::SendAcknowledgement(id),
                ProtocolAction::RequestRetransmission(expected),
            ],
        )
    }
}

/// The transition table.
pub open spec fn step(s: SessionView, e: ProtocolEvent, now: u64) -> (
    SessionView,
    Seq<ProtocolAction>,
) {
    match e {
        ProtocolEvent::Connect => if s.state == ProtocolState::Disconnected {
            (SessionView { state: ProtocolState::Connected, ..s }, Seq::empty())
        } else {
            reject(s)
        },
        ProtocolEvent::Authenticate(id, _) => if s.state == ProtocolState::Connected {
            (
                SessionView { state: ProtocolState::Authenticating, imei: Some(id@), ..s },
                Seq::empty(),
            )
        } else {
            reject(s)
        },
        ProtocolEvent::AuthSuccess => if s.state == ProtocolState::Authenticating {
            (SessionView { state: ProtocolState::Ready, ..s }, Seq::empty())
        } else {
            reject(s)
        },
        ProtocolEvent::PacketReceived(p) => if s.state == ProtocolState::Ready {
            on_packet(s, p.crc16, now)
        } else {
            reject(s)
        },
        ProtocolEvent::AcknowledgementReceived(id) => if s.state == ProtocolState::Ready {
            (SessionView { pending: without_id(s.pending, id), ..s }, Seq::empty())
        } else {
            reject(s)
        },
        ProtocolEvent::ConnectionLost => (
            SessionView { state: ProtocolState::Disconnected, ..s },
            seq![ProtocolAction::ResetConnection],
        ),
        ProtocolEvent::Timeout => (
            SessionView {
                state: ProtocolState::Error,
                pending: unexpired(s.pending, now, s.timeout),
                ..s
            },
            retransmissions(s.pending, now, s.timeout),
        ),
        _ => reject(s),
    }
}

impl StateMachine {
    /// A disconnected session that retransmits entries older than `timeout_ms`.
    pub fn new(timeout_ms: u64) -> (r: Self)
        ensures
            r@.state == ProtocolState::Disconnected,
            r@.last_ack == 0,
            r@.pending == Seq::<(u32, u64)>::empty(),
            r@.timeout == timeout_ms,
            r@.imei is None,
    {
        StateMachine {
            state: ProtocolState::Disconnected,
            last_ack: 0,
            pending_packets: Vec::new(),
            timeout_ms,
            imei: None,
        }
    }

    /// The current state.
    pub fn state(&self) -> (r: ProtocolState)
        ensures
            r == self@.state,
    {
        self.state
    }

    /// The identity the device gave when it authenticated, if it has.
    pub fn identity(&self) -> (r: Option<&String>)
        ensures
            match r {
                Some(id) => self@.imei == Some(id@),
                None => self@.imei is None,
            },
    {
        match &self.imei {
            Some(id) => Some(id),
            None => None,
        }
    }

    /// Number of identifiers awaiting acknowledgement.
    pub fn pending_count(&self) -> (r: usize)
        ensures
            r == self@.pending.len(),
    {
        self.pending_packets.len()
    }

    /// Delivers `event`, which happened at time `now_ms`, and returns the new state with
    /// the actions it calls for.
    pub fn handle_event(&mut self, event: ProtocolEvent, now_ms: u64) -> (r: ProtocolResult)
        ensures
            (final(self)@, r.actions@) == step(old(self)@, event, now_ms),
            r.state == final(self)@.state,
    {
        let ghost e = event;
        let actions = match event {
            ProtocolEvent::Connect => {
                if self.state == ProtocolState::Disconnected {
                    self.state = ProtocolState::Connected;
                    Vec::new()
                } else {
                    self.reject()
                }
            },
            ProtocolEvent::Authenticate(imei, _) => {
                if self.state == ProtocolState::Connected {
                    self.imei = Some(imei);
                    self.state = ProtocolState::Authenticating;
                    Vec::new()
                } else {
                    self.reject()
                }
            },
            ProtocolEvent::AuthSuccess => {
                if self.state == ProtocolState::Authenticating {
                    self.state = ProtocolState::Ready;
                    Vec::new()
                } else {
                    self.reject()
                }
            },
            ProtocolEvent::PacketReceived(packet) => {
                if self.state == ProtocolState::Ready {
                    self.handle_packet(packet.crc16, now_ms)
                } else {
                    self.reject()
                }
            },
            ProtocolEvent::AcknowledgementReceived(id) => {
                if self.state == ProtocolState::Ready {
                    self.handle_acknowledgement(id);
                    Vec::new()
                } else {
                    self.reject()
                }
            },
            ProtocolEvent::ConnectionLost => {
                self.state = ProtocolState::Disconnected;
                let mut a = Vec::new();
                a.push(ProtocolAction::ResetConnection);
                a
            },
            ProtocolEvent::Timeout => {
                let a = self.handle_timeout(now_ms);
                self.state = ProtocolState::Error;
                a
            },
            _ => self.reject(),
        };
        proof {
            assert((self@, actions@) =~~= step(old(self)@, e, now_ms));
        }
        ProtocolResult { state: self.state, actions }
    }

    fn reject(&mut self) -> (r: Vec<ProtocolAction>)
        ensures
            (final(self)@, r@) == reject(old(self)@),
    {
        self.state = ProtocolState::Error;
        let mut a = Vec::new();
        a.push(ProtocolAction::DisconnectClient);
        proof {
            assert(a@ =~= seq![ProtocolAction::DisconnectClient]);
        }
        a
    }

    fn has_pending(&self, id: u32) -> (r: bool)
        ensures
            r == (count_id(self@.pending, id) > 0),
    {
        let mut i: usize = 0;
        let mut found = false;
        while i < self.pending_packets.len()
            invariant
                i <= self.pending_packets@.len(),
                found == (count_id(self.pending_packets@.take(i as int), id) > 0),
            decreases self.pending_packets@.len() - i,
        {
            proof {
                assert(self.pending_packets@.take(i + 1).drop_last() =~= self.pending_packets@.take(
                    i as int,
                ));
            }
            if self.pending_packets[i].0 == id {
                found = true;
            }
            i = i + 1;
        }
        proof {
            assert(self.pending_packets@.take(i as int) =~= self.pending_packets@);
        }
        found
    }

    fn handle_packet(&mut self, id: u32, now: u64) -> (r: Vec<ProtocolAction>)
        ensures
            (final(self)@, r@) == on_packet(old(self)@, id, now),
    {
        if !self.has_pending(id) {
            self.pending_packets.push((id, now));
        }
        let mut actions = Vec::new();
        actions.push(ProtocolAction::SendAcknowledgement(id));
        let expected = if self.last_ack == u32::MAX {
            0
        } else {
            self.last_ack + 1
        };
        if id != expected {
            actions.push(ProtocolAction::RequestRetransmission(expected));
        } else {
            self.last_ack = id;
        }
        proof {
            assert((self@, actions@) =~~= on_packet(old(self)@, id, now));
        }
        actions
    }

    fn handle_acknowledgement(&mut self, id: u32)
        ensures
            final(self)@ == (SessionView { pending: without_id(old(self)@.pending, id), ..old(self)@ }),
    {
        let ghost p = self.pending_packets@;
        let mut kept: Vec<(u32, u64)> = Vec::new();
        let mut i: usize = 0;
        while i < self.pending_packets.len()
            invariant
                p == self.pending_packets@,
                i <= p.len(),
                kept@ == without_id(p.take(i as int), id),
            decreases p.len() - i,
        {
            proof {
                assert(p.take(i + 1).drop_last() =~= p.take(i as int));
            }
            let e = self.pending_packets[i];
            if e.0 != id {
                kept.push(e);
            }
            i = i + 1;
        }
        proof {
            assert(p.take(i as int) =~= p);
        }
        self.pending_packets = kept;
    }

    fn handle_timeout(&mut self, now: u64) -> (r: Vec<ProtocolAction>)
        ensures
            final(self)@ == (SessionView {
                pending: unexpired(old(self)@.pending, now, old(self)@.timeout),
                ..old(self)@
            }),
            r@ == retransmissions(old(self)@.pending, now, old(self)@.timeout),
    {
        let ghost p = self.pending_packets@;
        let timeout = self.timeout_ms;
        let mut kept: Vec<(u32, u64)> = Vec::new();
        let mut actions: Vec<ProtocolAction> = Vec::new();
        let mut i: usize = 0;
        while i < self.pending_packets.len()
            invariant
                p == self.pending_packets@,
                timeout == self.timeout_ms,
                i <= p.len(),
                kept@ == unexpired(p.take(i as int), now, timeout),
                actions@ == retransmissions(p.take(i as int), now, timeout),
            decreases p.len() - i,
        {
            proof {
                assert(p.take(i + 1).drop_last() =~= p.take(i as int));
            }
            let e = self.pending_packets[i];
            if now > e.1 && now - e.1 > timeout {
                actions.push(ProtocolAction::RequestRetransmission(e.0));
            } else {
                kept.push(e);
            }
            i = i + 1;
        }
        proof {
            assert(p.take(i as int) =~= p);
        }
        self.pending_packets = kept;
        actions
    }
}

proof fn lemma_count_id_at(p: Seq<(u32, u64)>, k: int)
    requires
        0 <= k < p.len(),
    ensures
        count_id(p, p[k].0) >= 1,
    decreases p.len(),
{
    if k < p.len() - 1 {
        lemma_count_id_at(p.drop_last(), k);
        assert(p.drop_last()[k] == p[k]);
    }
}

proof fn lemma_count_without(p: Seq<(u32, u64)>, x: u32, y: u32)
    ensures
        count_id(without_id(p, x), y) == if x == y {
            0
        } else {
            count_id(p, y)
        },
    decreases p.len(),
{
    if p.len() > 0 {
        lemma_count_without(p.drop_last(), x, y);
        if p.last().0 != x {
            assert(without_id(p, x).drop_last() =~= without_id(p.drop_last(), x));
        }
    }
}

proof fn lemma_count_unexpired(p: Seq<(u32, u64)>, now: u64, timeout: u64, y: u32)
    ensures
        count_id(unexpired(p, now, timeout), y) <= count_id(p, y),
    decreases p.len(),
{
    if p.len() > 0 {
        lemma_count_unexpired(p.drop_last(), now, timeout, y);
        if !expired(p.last(), now, timeout) {
            assert(unexpired(p, now, timeout).drop_last() =~= unexpired(p.drop_last(), now, timeout));
        }
    }
}

proof fn lemma_without_distinct(p: Seq<(u32, u64)>, x: u32)
    requires
        ids_distinct(p),
    ensures
        ids_distinct(without_id(p, x)),
    decreases p.len(),
{
    if p.len() > 0 {
        lemma_without_distinct(p.drop_last(), x);
        if p.last().0 != x {
            let w = without_id(p, x);
            assert(w.drop_last() =~= without_id(p.drop_last(), x));
            lemma_count_without(p.drop_last(), x, p.last().0);
        }
    }
}

proof fn lemma_unexpired_distinct(p: Seq<(u32, u64)>, now: u64, timeout: u64)
    requires
        ids_distinct(p),
    ensures
        ids_distinct(unexpired(p, now, timeout)),
    decreases p.len(),
{
    if p.len() > 0 {
        lemma_unexpired_distinct(p.drop_last(), now, timeout);
        if !expired(p.last(), now, timeout) {
            let u = unexpired(p, now, timeout);
            assert(u.drop_last() =~= unexpired(p.drop_last(), now, timeout));
            lemma_count_unexpired(p.drop_last(), now, timeout, p.last().0);
        }
    }
}

proof fn lemma_retransmissions_bounded(p: Seq<(u32, u64)>, now: u64, timeout: u64, id: u32)
    ensures
        occurrences(retransmissions(p, now, timeout), ProtocolAction::RequestRetransmission(id))
            <= count_id(p, id),
    decreases p.len(),
{
    if p.len() > 0 {
        lemma_retransmissions_bounded(p.drop_last(), now, timeout, id);
        let r = retransmissions(p, now, timeout);
        if expired(p.last(), now, timeout) {
            assert(r.drop_last() =~= retransmissions(p.drop_last(), now, timeout));
        }
    }
}

/// No identifier is ever pending twice: every transition keeps the pending entries'
/// identifiers distinct.
pub proof fn lemma_step_keeps_ids_distinct(s: SessionView, e: ProtocolEvent, now: u64)
    requires
        ids_distinct(s.pending),
    ensures
        ids_distinct(step(s, e, now).0.pending),
{
    match e {
        ProtocolEvent::PacketReceived(p) => {
            if s.state == ProtocolState::Ready && count_id(s.pending, p.crc16) == 0 {
                let q = s.pending.push((p.crc16, now));
                assert(q.drop_last() =~= s.pending);
            }
        },
        ProtocolEvent::AcknowledgementReceived(id) => lemma_without_distinct(s.pending, id),
        ProtocolEvent::Timeout => lemma_unexpired_distinct(s.pending, now, s.timeout),
        _ => {},
    }
}

/// A pending entry that has outlived the timeout is requested exactly once by the
/// `Timeout` that finds it, and no later `Timeout` requests it again: the sweep evicts
/// it.
pub proof fn lemma_timeout_retransmits_once(
    s: SessionView,
    k: int,
    now: u64,
    later: u64,
)
    requires
        ids_distinct(s.pending),
        0 <= k < s.pending.len(),
        expired(s.pending[k], now, s.timeout),
    ensures
        occurrences(
            step(s, ProtocolEvent::Timeout, now).1,
            ProtocolAction::RequestRetransmission(s.pending[k].0),
        ) == 1,
        count_id(step(s, ProtocolEvent::Timeout, now).0.pending, s.pending[k].0) == 0,
        occurrences(
            step(step(s, ProtocolEvent::Timeout, now).0, ProtocolEvent::Timeout, later).1,
            ProtocolAction::RequestRetransmission(s.pending[k].0),
        ) == 0,
{
    let id = s.pending[k].0;
    lemma_expired_once(s.pending, k, now, s.timeout);
    let after = unexpired(s.pending, now, s.timeout);
    lemma_retransmissions_bounded(after, later, s.timeout, id);
}

proof fn lemma_expired_once(p: Seq<(u32, u64)>, k: int, now: u64, timeout: u64)
    requires
        ids_distinct(p),
        0 <= k < p.len(),
        expired(p[k], now, timeout),
    ensures
        occurrences(retransmissions(p, now, timeout), ProtocolAction::RequestRetransmission(p[k].0))
            == 1,
        count_id(unexpired(p, now, timeout), p[k].0) == 0,
    decreases p.len(),
{
    let id = p[k].0;
    let a = ProtocolAction::RequestRetransmission(id);
    let r = retransmissions(p, now, timeout);
    let u = unexpired(p, now, timeout);
    let q = p.drop_last();
    if k == p.len() - 1 {
        lemma_retransmissions_bounded(q, now, timeout, id);
        lemma_count_unexpired(q, now, timeout, id);
        assert(r.drop_last() =~= retransmissions(q, now, timeout));
    } else {
        assert(q[k] == p[k]);
        lemma_expired_once(q, k, now, timeout);
        lemma_count_id_at(q, k);
        assert(p.last().0 != id);
        if expired(p.last(), now, timeout) {
            assert(r.drop_last() =~= retransmissions(q, now, timeout));
        } else {
            assert(u.drop_last() =~= unexpired(q, now, timeout));
        }
    }
}

/// Once failed, a session stays failed: any event but `ConnectionLost` and `Timeout`
/// keeps it in `Error` and asks for the client to be disconnected.
pub proof fn lemma_error_is_terminal(s: SessionView, e: ProtocolEvent, now: u64)
    requires
        s.state == ProtocolState::Error,
        !(e is ConnectionLost),
        !(e is Timeout),
    ensures
        step(s, e, now).0.state == ProtocolState::Error,
        step(s, e, now).1 == seq![ProtocolAction::DisconnectClient],
{
}

} // verus!

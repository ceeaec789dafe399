//! The session supervisor: the lifecycle of one session, from the
//! handshake through the established phase to disconnection, with
//! heartbeat and timeout handling. The supervisor decides; the socket
//! layer around it performs the actions it returns.

use vstd::prelude::*;

verus! {

/// The lifecycle states of a session.
#[derive(Clone, Copy, Debug, PartialEq, Eq, Structural)]
pub enum SessionState {
    /// The handshake is under way.
    Negotiating,
    /// The session carries reliable data.
    Established,
    /// A local disconnect was requested and told to the peer.
    Disconnecting,
    /// The session is over; its state can be discarded.
    Closed,
}

/// The lifecycle events the supervisor reacts to.
#[derive(Clone, Copy, Debug, PartialEq, Eq, Structural)]
pub enum SessionEvent {
    /// The peer confirmed the session.
    SessionResponseReceived,
    /// The peer is closing the session.
    DisconnectReceived,
    /// The application asks to close the session.
    DisconnectRequested,
    /// The peer no longer knows this session.
    UnknownSenderReceived,
    /// The peer moved to another address.
    RemapConnectionReceived,
}

/// What the socket layer must do after an event or a tick.
#[derive(Clone, Copy, Debug, PartialEq, Eq, Structural)]
pub enum SessionAction {
    /// Nothing to do.
    Idle,
    /// Send a Disconnect packet to the peer.
    SendDisconnect,
    /// Send a Heartbeat packet to the peer.
    SendHeartbeat,
    /// Drop the reliable channels and the reassembler, then renegotiate.
    ClearReliableState,
    /// Rebind the peer address, keeping session state and sequences.
    RemapPeerAddress,
    /// Tear the session down: it timed out.
    CloseSession,
}

/// The supervisor's transition on one lifecycle event: a session response
/// establishes a negotiating session; a peer disconnect closes any live
/// session; a local disconnect request announces itself to the peer; an
/// unknown-sender report in the established phase returns to negotiation
/// after clearing reliable state; a remap keeps everything but the
/// address. Everything else changes nothing.
pub open spec fn session_transition(state: SessionState, event: SessionEvent) -> (
    SessionState,
    SessionAction,
) {
    match (state, event) {
        (SessionState::Negotiating, SessionEvent::SessionResponseReceived) => (
            SessionState::Established,
            SessionAction::Idle,
        ),
        (SessionState::Negotiating, SessionEvent::DisconnectReceived) => (
            SessionState::Closed,
            SessionAction::Idle,
        ),
        (SessionState::Established, SessionEvent::DisconnectReceived) => (
            SessionState::Closed,
            SessionAction::Idle,
        ),
        (SessionState::Disconnecting, SessionEvent::DisconnectReceived) => (
            SessionState::Closed,
            SessionAction::Idle,
        ),
        (SessionState::Established, SessionEvent::DisconnectRequested) => (
            SessionState::Disconnecting,
            SessionAction::SendDisconnect,
        ),
        (SessionState::Negotiating, SessionEvent::DisconnectRequested) => (
            SessionState::Closed,
            SessionAction::Idle,
        ),
        (SessionState::Established, SessionEvent::UnknownSenderReceived) => (
            SessionState::Negotiating,
            SessionAction::ClearReliableState,
        ),
        (SessionState::Negotiating, SessionEvent::RemapConnectionReceived) => (
            SessionState::Negotiating,
            SessionAction::RemapPeerAddress,
        ),
        (SessionState::Established, SessionEvent::RemapConnectionReceived) => (
            SessionState::Established,
            SessionAction::RemapPeerAddress,
        ),
        _ => (state, SessionAction::Idle),
    }
}

/// The supervisor's transition on a timer tick, given how long the
/// session has been idle: an established session sends a heartbeat once
/// idle past the heartbeat interval, and is closed once idle past the
/// session timeout.
pub open spec fn session_tick_transition(
    state: SessionState,
    idle: int,
    heartbeat_interval: int,
    session_timeout: int,
) -> (SessionState, SessionAction) {
    if state == SessionState::Established {
        if idle >= session_timeout {
            (SessionState::Closed, SessionAction::CloseSession)
        } else if idle >= heartbeat_interval {
            (SessionState::Established, SessionAction::SendHeartbeat)
        } else {
            (SessionState::Established, SessionAction::Idle)
        }
    } else {
        (state, SessionAction::Idle)
    }
}

/// The session supervisor.
pub struct SessionSupervisor {
    state: SessionState,
}

impl SessionSupervisor {
    /// A fresh session starts negotiating.
    pub fn new() -> (supervisor: SessionSupervisor)
        ensures
            supervisor.state_of() == SessionState::Negotiating,
    {
        SessionSupervisor { state: SessionState::Negotiating }
    }

    /// The session's current lifecycle state.
    pub closed spec fn state_of(self) -> SessionState {
        self.state
    }

    /// The session's current lifecycle state.
    pub fn current_state(&self) -> (state: SessionState)
        ensures
            state == self.state_of(),
    {
        self.state
    }

    /// Reacts to one lifecycle event, returning what the socket layer
    /// must do.
    pub fn handle_event(&mut self, event: SessionEvent) -> (action: SessionAction)
        ensures
            (final(self).state_of(), action) == session_transition(old(self).state_of(), event),
    {
        let (state, action) = match (self.state, event) {
            (SessionState::Negotiating, SessionEvent::SessionResponseReceived) => (
                SessionState::Established,
                SessionAction::Idle,
            ),
            (SessionState::Negotiating, SessionEvent::DisconnectReceived) => (
                SessionState::Closed,
                SessionAction::Idle,
            ),
            (SessionState::Established, SessionEvent::DisconnectReceived) => (
                SessionState::Closed,
                SessionAction::Idle,
            ),
            (SessionState::Disconnecting, SessionEvent::DisconnectReceived) => (
                SessionState::Closed,
                SessionAction::Idle,
            ),
            (SessionState::Established, SessionEvent::DisconnectRequested) => (
                SessionState::Disconnecting,
                SessionAction::SendDisconnect,
            ),
            (SessionState::Negotiating, SessionEvent::DisconnectRequested) => (
                SessionState::Closed,
                SessionAction::Idle,
            ),
            (SessionState::Established, SessionEvent::UnknownSenderReceived) => (
                SessionState::Negotiating,
                SessionAction::ClearReliableState,
            ),
            (SessionState::Negotiating, SessionEvent::RemapConnectionReceived) => (
                SessionState::Negotiating,
                SessionAction::RemapPeerAddress,
            ),
            (SessionState::Established, SessionEvent::RemapConnectionReceived) => (
                SessionState::Established,
                SessionAction::RemapPeerAddress,
            ),
            _ => (self.state, SessionAction::Idle),
        };
        self.state = state;
        action
    }

    /// Reacts to a timer tick. `now` and `last_activity` come from the
    /// caller's clock; the idle time is their difference.
    pub fn tick(
        &mut self,
        now: u64,
        last_activity: u64,
        heartbeat_interval: u64,
        session_timeout: u64,
    ) -> (action: SessionAction)
        requires
            last_activity <= now,
        ensures
            (final(self).state_of(), action) == session_tick_transition(
                old(self).state_of(),
                now - last_activity,
                heartbeat_interval as int,
                session_timeout as int,
            ),
    {
        let idle = now - last_activity;
        if !matches!(self.state, SessionState::Established) {
            return SessionAction::Idle;
        }
        if idle >= session_timeout {
            self.state = SessionState::Closed;
            SessionAction::CloseSession
        } else if idle >= heartbeat_interval {
            SessionAction::SendHeartbeat
        } else {
            SessionAction::Idle
        }
    }
}

/// A closed session stays closed: no event revives it.
pub proof fn lemma_closed_is_final(event: SessionEvent)
    ensures
        session_transition(SessionState::Closed, event).0 == SessionState::Closed,
{
}

} // verus!

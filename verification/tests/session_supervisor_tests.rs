use soe_protocol::session_supervisor::SessionAction;
use soe_protocol::session_supervisor::SessionEvent;
use soe_protocol::session_supervisor::SessionState;
use soe_protocol::session_supervisor::SessionSupervisor;

#[test]
fn the_handshake_establishes_the_session() {
    let mut supervisor = SessionSupervisor::new();
    assert_eq!(supervisor.current_state(), SessionState::Negotiating);
    let action = supervisor.handle_event(SessionEvent::SessionResponseReceived);
    assert_eq!(action, SessionAction::Idle);
    assert_eq!(supervisor.current_state(), SessionState::Established);
}

#[test]
fn a_local_disconnect_announces_itself_then_closes() {
    let mut supervisor = SessionSupervisor::new();
    supervisor.handle_event(SessionEvent::SessionResponseReceived);
    let action = supervisor.handle_event(SessionEvent::DisconnectRequested);
    assert_eq!(action, SessionAction::SendDisconnect);
    assert_eq!(supervisor.current_state(), SessionState::Disconnecting);
    supervisor.handle_event(SessionEvent::DisconnectReceived);
    assert_eq!(supervisor.current_state(), SessionState::Closed);
}

#[test]
fn an_unknown_sender_returns_to_negotiation() {
    let mut supervisor = SessionSupervisor::new();
    supervisor.handle_event(SessionEvent::SessionResponseReceived);
    let action = supervisor.handle_event(SessionEvent::UnknownSenderReceived);
    assert_eq!(action, SessionAction::ClearReliableState);
    assert_eq!(supervisor.current_state(), SessionState::Negotiating);
}

#[test]
fn a_remap_keeps_the_session_state() {
    let mut supervisor = SessionSupervisor::new();
    supervisor.handle_event(SessionEvent::SessionResponseReceived);
    let action = supervisor.handle_event(SessionEvent::RemapConnectionReceived);
    assert_eq!(action, SessionAction::RemapPeerAddress);
    assert_eq!(supervisor.current_state(), SessionState::Established);
}

#[test]
fn a_closed_session_stays_closed() {
    let mut supervisor = SessionSupervisor::new();
    supervisor.handle_event(SessionEvent::DisconnectReceived);
    assert_eq!(supervisor.current_state(), SessionState::Closed);
    supervisor.handle_event(SessionEvent::SessionResponseReceived);
    assert_eq!(supervisor.current_state(), SessionState::Closed);
    assert_eq!(
        supervisor.handle_event(SessionEvent::DisconnectRequested),
        SessionAction::Idle
    );
}

#[test]
fn idle_sessions_heartbeat_then_time_out() {
    let mut supervisor = SessionSupervisor::new();
    supervisor.handle_event(SessionEvent::SessionResponseReceived);

    assert_eq!(supervisor.tick(1_040, 1_000, 100, 600), SessionAction::Idle);
    assert_eq!(
        supervisor.tick(1_150, 1_000, 100, 600),
        SessionAction::SendHeartbeat
    );
    assert_eq!(supervisor.current_state(), SessionState::Established);
    assert_eq!(
        supervisor.tick(1_700, 1_000, 100, 600),
        SessionAction::CloseSession
    );
    assert_eq!(supervisor.current_state(), SessionState::Closed);
}

use robyn::types::HttpMethod;
use robyn::ws::{handshake_ok, WsAction, WsEvent, WsSession, WsState};

#[test]
fn graceful_close_invokes_on_close_once() {
    let mut s = WsSession::new();
    assert_eq!(s.on_event(WsEvent::HandshakeOk), WsAction::InvokeConnect);
    assert_eq!(s.on_event(WsEvent::InboundFrame), WsAction::InvokeMessage);
    assert_eq!(s.on_event(WsEvent::InboundFrame), WsAction::InvokeMessage);
    assert_eq!(s.on_event(WsEvent::InboundClose), WsAction::NoAction);
    assert_eq!(s.on_event(WsEvent::CloseComplete), WsAction::InvokeClose);
    assert_eq!(s.state, WsState::Closed);
    assert_eq!(s.close_calls, 1);
    assert_eq!(s.on_event(WsEvent::TransportError), WsAction::NoAction);
    assert_eq!(s.close_calls, 1);
}

#[test]
fn server_close_timeout_invokes_on_close_once() {
    let mut s = WsSession::new();
    s.on_event(WsEvent::HandshakeOk);
    assert_eq!(s.on_event(WsEvent::ServerClose), WsAction::NoAction);
    assert_eq!(s.state, WsState::Closing);
    assert_eq!(s.on_event(WsEvent::InboundFrame), WsAction::NoAction);
    assert_eq!(s.on_event(WsEvent::CloseTimeout), WsAction::InvokeClose);
    assert_eq!(s.close_calls, 1);
}

#[test]
fn transport_error_invokes_on_close_once() {
    let mut s = WsSession::new();
    s.on_event(WsEvent::HandshakeOk);
    assert_eq!(s.on_event(WsEvent::TransportError), WsAction::InvokeClose);
    assert_eq!(s.state, WsState::Closed);
    assert_eq!(s.close_calls, 1);
    s.on_event(WsEvent::InboundFrame);
    s.on_event(WsEvent::CloseComplete);
    assert_eq!(s.close_calls, 1);
}

#[test]
fn failed_handshake_closes_once() {
    let mut s = WsSession::new();
    assert_eq!(s.on_event(WsEvent::TransportError), WsAction::InvokeClose);
    assert_eq!(s.state, WsState::Closed);
    assert_eq!(s.close_calls, 1);
}

#[test]
fn error_during_closing_closes_once() {
    let mut s = WsSession::new();
    s.on_event(WsEvent::HandshakeOk);
    s.on_event(WsEvent::InboundClose);
    assert_eq!(s.on_event(WsEvent::TransportError), WsAction::InvokeClose);
    assert_eq!(s.close_calls, 1);
}

#[test]
fn handshake_decision() {
    let upgrade = b"WebSocket".to_vec();
    let version = b"13".to_vec();
    assert!(handshake_ok(HttpMethod::Get, Some(&upgrade), Some(&version), true));
    assert!(!handshake_ok(HttpMethod::Post, Some(&upgrade), Some(&version), true));
    assert!(!handshake_ok(HttpMethod::Get, Some(&upgrade), Some(&version), false));
    assert!(!handshake_ok(HttpMethod::Get, None, Some(&version), true));
    assert!(!handshake_ok(HttpMethod::Get, Some(&upgrade), None, true));
    let wrong = b"h2c".to_vec();
    assert!(!handshake_ok(HttpMethod::Get, Some(&wrong), Some(&version), true));
    let old_version = b"8".to_vec();
    assert!(!handshake_ok(HttpMethod::Get, Some(&upgrade), Some(&old_version), true));
}

use tcp2http::error::TCPSocketError;
use tcp2http::shutdown::Shutdown;
use tokio_util::sync::CancellationToken;

#[test]
fn shutdown_starts_unreceived_and_stays_received() {
    let token = CancellationToken::new();
    let mut s = Shutdown::new(token.clone());
    assert!(!s.is_shutdown());
    assert!(!s.token().is_cancelled());
    token.cancel();
    assert!(s.token().is_cancelled());
    s.mark_received();
    assert!(s.is_shutdown());
    s.mark_received();
    assert!(s.is_shutdown());
}

#[test]
fn socket_error_carries_its_message() {
    let e = TCPSocketError::SocketConfig("failed to create socket".to_string());
    match e {
        TCPSocketError::SocketConfig(m) => assert_eq!(m, "failed to create socket"),
    }
}

use dbus_wire::protocol::{
    hex_decode, hex_encode, AuthCommand, AuthListResponse, AuthMechanism, AuthReply, AuthResponse,
    AuthState, DBusProtocol, ProtocolError,
};

#[test]
fn cancel_while_authenticating_returns_to_idle_with_rejected() {
    let mut p = DBusProtocol::new(true, true);
    assert_eq!(p.submit(AuthCommand::Auth(Some(AuthMechanism::External))), Ok(None));
    assert_eq!(p.state, AuthState::Authenticating);
    assert_eq!(p.submit(AuthCommand::Cancel), Ok(Some(AuthReply::Rejected)));
    assert_eq!(p.state, AuthState::Idle);
}

#[test]
fn begin_after_authentication_is_terminal_with_no_reply() {
    let mut p = DBusProtocol::new(true, true);
    assert_eq!(p.submit(AuthCommand::Auth(Some(AuthMechanism::External))), Ok(None));
    assert_eq!(p.submit(AuthCommand::ServerOk), Ok(None));
    assert_eq!(p.state, AuthState::Authenticated);
    assert_eq!(p.submit(AuthCommand::Begin), Ok(None));
    assert_eq!(p.state, AuthState::Begun);
    // the terminal state accepts nothing further
    assert_eq!(p.submit(AuthCommand::Cancel), Err(ProtocolError::OutOfSequence));
}

#[test]
fn begin_while_authenticating_is_out_of_sequence() {
    let mut p = DBusProtocol::new(true, true);
    assert_eq!(p.submit(AuthCommand::Auth(Some(AuthMechanism::External))), Ok(None));
    assert_eq!(p.submit(AuthCommand::Begin), Err(ProtocolError::OutOfSequence));
    assert_eq!(p.state, AuthState::Authenticating);
}

#[test]
fn auth_with_no_mechanism_lists_mechanisms_via_rejected() {
    let mut p = DBusProtocol::new(true, true);
    assert_eq!(p.submit(AuthCommand::Auth(None)), Ok(Some(AuthReply::Rejected)));
    assert_eq!(p.state, AuthState::Authenticating);
    assert_eq!(
        DBusProtocol::supported_mechanisms(),
        vec![
            AuthMechanism::External,
            AuthMechanism::DbusCookieSha1,
            AuthMechanism::Anonymous,
        ]
    );
}

#[test]
fn a_bus_server_rejects_anonymous_but_a_peer_accepts_it() {
    // AUTH always enters the authenticating phase; the REJECTED the server
    // owes then brings the machine back to idle
    let mut bus = DBusProtocol::new(true, true);
    assert_eq!(
        bus.submit(AuthCommand::Auth(Some(AuthMechanism::Anonymous))),
        Ok(Some(AuthReply::Rejected))
    );
    assert_eq!(bus.state, AuthState::Authenticating);
    assert_eq!(bus.submit(AuthCommand::ServerRejected), Ok(None));
    assert_eq!(bus.state, AuthState::Idle);
    assert_eq!(bus.auth(AuthMechanism::Anonymous), AuthResponse::Rejected);
    assert_eq!(bus.state, AuthState::Authenticating);

    let mut peer = DBusProtocol::new(false, true);
    assert_eq!(peer.submit(AuthCommand::Auth(Some(AuthMechanism::Anonymous))), Ok(None));
    assert_eq!(peer.state, AuthState::Authenticating);
    let mut peer2 = DBusProtocol::new(false, true);
    assert_eq!(peer2.auth(AuthMechanism::Anonymous), AuthResponse::Okay);
    assert_eq!(peer2.state, AuthState::Authenticating);
}

#[test]
fn server_rejection_and_data_exchange_follow_the_table() {
    let mut p = DBusProtocol::new(true, true);
    assert_eq!(p.submit(AuthCommand::Auth(Some(AuthMechanism::DbusCookieSha1))), Ok(None));
    assert_eq!(p.submit(AuthCommand::Data), Ok(None));
    assert_eq!(p.state, AuthState::Authenticating);
    assert_eq!(p.submit(AuthCommand::ServerRejected), Ok(None));
    assert_eq!(p.state, AuthState::Idle);
}

#[test]
fn unix_fd_negotiation_depends_on_server_support() {
    let mut yes = DBusProtocol::new(true, true);
    yes.submit(AuthCommand::Auth(Some(AuthMechanism::External))).unwrap();
    yes.submit(AuthCommand::ServerOk).unwrap();
    assert_eq!(yes.submit(AuthCommand::NegotiateUnixFd), Ok(Some(AuthReply::AgreeUnixFd)));
    assert_eq!(yes.state, AuthState::Authenticated);

    let mut no = DBusProtocol::new(true, false);
    no.submit(AuthCommand::Auth(Some(AuthMechanism::External))).unwrap();
    no.submit(AuthCommand::ServerOk).unwrap();
    assert_eq!(no.submit(AuthCommand::NegotiateUnixFd), Ok(Some(AuthReply::Error)));
}

#[test]
fn auth_enters_authenticating_and_mirrors_the_server_reply() {
    let mut p = DBusProtocol::new(true, true);
    assert_eq!(p.auth(AuthMechanism::External), AuthResponse::Okay);
    assert_eq!(p.state, AuthState::Authenticating);
    // anywhere but idle, AUTH is out of sequence
    assert_eq!(p.auth(AuthMechanism::External), AuthResponse::Error);
    assert_eq!(p.state, AuthState::Authenticating);
    // the server's OK then authenticates
    assert_eq!(p.submit(AuthCommand::ServerOk), Ok(None));
    assert_eq!(p.state, AuthState::Authenticated);

    let mut q = DBusProtocol::new(true, true);
    assert_eq!(q.auth(AuthMechanism::DbusCookieSha1), AuthResponse::Data);
}

#[test]
fn list_auth_replies_rejected_and_leaves_the_machine_authenticating() {
    let mut p = DBusProtocol::new(true, true);
    assert_eq!(p.list_auth(), AuthListResponse::Rejected);
    assert_eq!(p.state, AuthState::Authenticating);
    assert_eq!(p.list_auth(), AuthListResponse::Error);
}

#[test]
fn hex_round_trips_and_rejects_malformed_payloads() {
    assert_eq!(hex_encode(&vec![0x0f, 0xa0, 0x00, 0xff]), "0fa000ff".to_string());
    assert_eq!(hex_decode("0fa000ff"), Ok(vec![0x0f, 0xa0, 0x00, 0xff]));
    assert_eq!(hex_decode("0FA000FF"), Ok(vec![0x0f, 0xa0, 0x00, 0xff]));
    assert_eq!(hex_decode(""), Ok(vec![]));
    assert_eq!(hex_encode(&vec![]), "".to_string());
    assert_eq!(hex_decode("abc"), Err(ProtocolError::InvalidHexData));
    assert_eq!(hex_decode("zz"), Err(ProtocolError::InvalidHexData));
}

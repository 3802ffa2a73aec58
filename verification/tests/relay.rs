use quic_relay::connection::{
    ClientLimits, ConnectionAction, ConnectionError, ConnectionEvent, ConnectionState,
};
use quic_relay::quic_relay::{
    alpn_protocols, ServerAction, ServerEvent, ServerState, SpawnError, SpawnStage,
    ALPN_QUIC_RELAY, CLOSE_CODE, CLOSE_REASON, MAX_BIDI_STREAMS, MAX_IDLE_TIMEOUT_SECS,
    MAX_UNI_STREAMS, QUIC_WRITE_TIMEOUT_SECS,
};

#[test]
fn transport_settings() {
    assert_eq!(&ALPN_QUIC_RELAY, b"/iroh-relay/0");
    assert_eq!(alpn_protocols(), [b"/iroh-relay/0".to_vec()]);
    assert_eq!(MAX_BIDI_STREAMS, 1024);
    assert_eq!(MAX_UNI_STREAMS, 0);
    assert_eq!(MAX_IDLE_TIMEOUT_SECS, 60);
    assert_eq!(QUIC_WRITE_TIMEOUT_SECS, 2);
    assert_eq!(CLOSE_CODE, 0);
    assert_eq!(CLOSE_REASON, "shutdown");
}

#[test]
fn spawn_stages_in_order() {
    let endpoint = SpawnStage::CryptoConfig.after(Ok(())).unwrap();
    assert_eq!(endpoint, Some(SpawnStage::Endpoint));
    let addr = SpawnStage::Endpoint.after(Ok(())).unwrap();
    assert_eq!(addr, Some(SpawnStage::LocalAddr));
    assert_eq!(SpawnStage::LocalAddr.after(Ok(())).unwrap(), None);
}

#[test]
fn spawn_errors() {
    let crypto = SpawnStage::CryptoConfig.after(Err("no suite".to_string()));
    match crypto.unwrap_err() {
        SpawnError::CryptoConfig { source } => assert_eq!(source, "no suite"),
        other => panic!("{other:?}"),
    }
    let endpoint = SpawnStage::Endpoint.after(Err("in use".to_string()));
    let endpoint = endpoint.unwrap_err();
    assert_eq!(endpoint.message(), "Unable to spawn QUIC relay endpoint");
    assert!(matches!(endpoint, SpawnError::Endpoint { .. }));
    let addr = SpawnStage::LocalAddr.after(Err("gone".to_string()));
    let addr = addr.unwrap_err();
    assert_eq!(addr.message(), "Unable to get local address");
    assert!(matches!(addr, SpawnError::LocalAddr { .. }));
    let crypto = SpawnError::CryptoConfig {
        source: String::new(),
    };
    assert_eq!(crypto.message(), "Failed to create QUIC server config");
}

fn serve(events: &[ServerEvent]) -> (ServerState, Vec<ServerAction>) {
    let mut state = ServerState::Accepting;
    let mut actions = Vec::new();
    for event in events {
        let (next, action) = state.on_event(*event).unwrap();
        state = next;
        actions.push(action);
    }
    (state, actions)
}

#[test]
fn server_runs_and_shuts_down_in_order() {
    let (state, actions) = serve(&[
        ServerEvent::Incoming,
        ServerEvent::Incoming,
        ServerEvent::TaskJoined {
            panicked: false,
            tasks: 1,
        },
        ServerEvent::Incoming,
        ServerEvent::Cancelled,
        ServerEvent::Idle,
        ServerEvent::Aborted { tasks: 2 },
        ServerEvent::TaskJoined {
            panicked: true,
            tasks: 1,
        },
        ServerEvent::TaskJoined {
            panicked: false,
            tasks: 0,
        },
    ]);
    assert_eq!(state, ServerState::Stopped);
    assert_eq!(
        actions,
        [
            ServerAction::Serve,
            ServerAction::Serve,
            ServerAction::Wait,
            ServerAction::Serve,
            ServerAction::Close,
            ServerAction::AbortAll,
            ServerAction::JoinNext,
            ServerAction::JoinNext,
            ServerAction::Stop,
        ]
    );
}

#[test]
fn closed_endpoint_shuts_down_too() {
    let (state, actions) = serve(&[
        ServerEvent::EndpointClosed,
        ServerEvent::Idle,
        ServerEvent::Aborted { tasks: 0 },
    ]);
    assert_eq!(state, ServerState::Stopped);
    assert_eq!(
        actions,
        [
            ServerAction::Close,
            ServerAction::AbortAll,
            ServerAction::Stop
        ]
    );
}

#[test]
fn panicked_task_takes_the_server_down() {
    let (state, actions) = serve(&[
        ServerEvent::Incoming,
        ServerEvent::TaskJoined {
            panicked: true,
            tasks: 0,
        },
    ]);
    assert_eq!(state, ServerState::Panicked);
    assert_eq!(actions, [ServerAction::Serve, ServerAction::Panic]);
}

#[test]
fn no_service_after_shutdown() {
    let (closing, _) = serve(&[ServerEvent::Cancelled]);
    assert_eq!(closing.on_event(ServerEvent::Incoming), None);
    assert_eq!(closing.on_event(ServerEvent::Cancelled), None);
    assert_eq!(ServerState::Stopped.on_event(ServerEvent::Incoming), None);
    assert_eq!(ServerState::Accepting.on_event(ServerEvent::Idle), None);
}

type Step = (ConnectionState, ConnectionAction<&'static str, u32>);

const LIMITS: ClientLimits<u32> = ClientLimits {
    channel_capacity: 512,
    client_rx_ratelimit: Some(4096),
};

fn step(state: ConnectionState, event: ConnectionEvent<&'static str>) -> Step {
    state.on_event(event, LIMITS).unwrap()
}

#[test]
fn client_is_authorized_and_registered() {
    let state = ConnectionState::Connecting;
    let (state, action) = step(state, ConnectionEvent::Connected(Ok(())));
    assert!(matches!(action, ConnectionAction::AcceptStream));
    let (state, action) = step(state, ConnectionEvent::StreamAccepted(Ok(())));
    assert!(matches!(action, ConnectionAction::Handshake));
    let (state, action) = step(state, ConnectionEvent::Authenticated(Ok("alice")));
    assert!(matches!(
        action,
        ConnectionAction::CheckAccess {
            client_key: "alice"
        }
    ));
    let (state, action) = step(state, ConnectionEvent::AccessDecided(true));
    assert!(matches!(
        action,
        ConnectionAction::Authorize {
            is_authorized: true
        }
    ));
    let (state, action) = step(state, ConnectionEvent::Authorized(Ok("alice")));
    assert_eq!(state, ConnectionState::Serving);
    match action {
        ConnectionAction::Register { config } => {
            assert_eq!(config.endpoint_id, "alice");
            assert_eq!(config.write_timeout_secs, 2);
            assert_eq!(config.channel_capacity, 512);
            assert_eq!(config.client_rx_ratelimit, Some(4096));
        }
        other => panic!("{other:?}"),
    }
    let (state, action) = step(state, ConnectionEvent::Closed);
    assert_eq!(state, ConnectionState::Finished);
    assert!(matches!(action, ConnectionAction::Finish));
}

#[test]
fn rate_limit_is_optional() {
    let limits: ClientLimits<u32> = ClientLimits {
        channel_capacity: 1,
        client_rx_ratelimit: None,
    };
    let event = ConnectionEvent::Authorized(Ok("bob"));
    match ConnectionState::Authorizing.on_event(event, limits) {
        Some((_, ConnectionAction::Register { config })) => {
            assert_eq!(config.client_rx_ratelimit, None);
            assert_eq!(config.channel_capacity, 1);
        }
        other => panic!("{other:?}"),
    }
}

#[test]
fn refused_client_is_told_and_given_up() {
    let (state, action) = step(
        ConnectionState::CheckingAccess,
        ConnectionEvent::AccessDecided(false),
    );
    assert!(matches!(
        action,
        ConnectionAction::Authorize {
            is_authorized: false
        }
    ));
    let (state, action) = step(state, ConnectionEvent::Authorized(Err("denied".to_string())));
    assert_eq!(state, ConnectionState::Finished);
    match action {
        ConnectionAction::Fail { error } => {
            assert_eq!(error.message(), "Handshake failed");
            assert!(matches!(error, ConnectionError::Handshake { source } if source == "denied"));
        }
        other => panic!("{other:?}"),
    }
}

#[test]
fn each_failed_step_has_its_error() {
    let failure = || Err("reset".to_string());
    let (state, action) = step(
        ConnectionState::Connecting,
        ConnectionEvent::Connected(failure()),
    );
    assert_eq!(state, ConnectionState::Finished);
    match action {
        ConnectionAction::Fail { error } => {
            assert_eq!(error.message(), "QUIC connection failed");
            assert!(matches!(error, ConnectionError::Connection { source } if source == "reset"));
        }
        other => panic!("{other:?}"),
    }
    let (_, action) = step(
        ConnectionState::AcceptingStream,
        ConnectionEvent::StreamAccepted(failure()),
    );
    match action {
        ConnectionAction::Fail { error } => {
            assert_eq!(error.message(), "Failed to accept bidi stream");
            assert!(matches!(error, ConnectionError::AcceptBi { source } if source == "reset"));
        }
        other => panic!("{other:?}"),
    }
    let (_, action) = step(
        ConnectionState::Handshaking,
        ConnectionEvent::Authenticated(Err("bad signature".to_string())),
    );
    assert!(matches!(
        action,
        ConnectionAction::Fail {
            error: ConnectionError::Handshake { .. }
        }
    ));
    assert_eq!(
        ConnectionError::NotAuthorized {}.message(),
        "Client not authorized"
    );
}

#[test]
fn unexpected_outcomes_are_refused() {
    let early: ConnectionEvent<&str> = ConnectionEvent::Authorized(Ok("mallory"));
    assert!(ConnectionState::Handshaking.on_event(early, LIMITS).is_none());
    let late: ConnectionEvent<&str> = ConnectionEvent::Closed;
    assert!(ConnectionState::Finished.on_event(late, LIMITS).is_none());
}

#[test]
fn nothing_follows_a_given_up_connection() {
    let (state, action) = step(
        ConnectionState::Authorizing,
        ConnectionEvent::Authorized(Err("denied".to_string())),
    );
    assert!(matches!(action, ConnectionAction::Fail { .. }));
    let later: [ConnectionEvent<&str>; 6] = [
        ConnectionEvent::Connected(Ok(())),
        ConnectionEvent::StreamAccepted(Ok(())),
        ConnectionEvent::Authenticated(Ok("alice")),
        ConnectionEvent::AccessDecided(true),
        ConnectionEvent::Authorized(Ok("alice")),
        ConnectionEvent::Closed,
    ];
    for event in later {
        assert!(state.on_event(event, LIMITS).is_none());
    }
}

#[test]
fn actions_have_their_causes() {
    let events = [
        ServerEvent::Incoming,
        ServerEvent::TaskJoined {
            panicked: false,
            tasks: 0,
        },
        ServerEvent::Incoming,
        ServerEvent::Cancelled,
        ServerEvent::Idle,
        ServerEvent::Aborted { tasks: 1 },
    ];
    let (_, actions) = serve(&events);
    assert_eq!(actions.len(), events.len());
    for (event, action) in events.iter().zip(&actions) {
        assert_eq!(
            *action == ServerAction::Serve,
            *event == ServerEvent::Incoming
        );
        assert_eq!(
            *action == ServerAction::Close,
            *event == ServerEvent::Cancelled || *event == ServerEvent::EndpointClosed
        );
    }
}

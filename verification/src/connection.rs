//! The decisions on a single connection to the QUIC relay.
//!
//! A client connects, opens its stream, proves who it is, is checked against
//! the access rules, and is registered. The owner of the connection performs
//! each step and reports the outcome here.

use vstd::prelude::*;

use crate::quic_relay::QUIC_WRITE_TIMEOUT_SECS;

verus! {

/// Connection error during QUIC relay handling, with the text of what caused it.
#[derive(Debug)]
#[non_exhaustive]
pub enum ConnectionError {
    Connection { source: String },
    AcceptBi { source: String },
    Handshake { source: String },
    NotAuthorized {},
}

impl ConnectionError {
    /// What failed.
    pub open spec fn text(self) -> Seq<char> {
        match self {
            ConnectionError::Connection { .. } => "QUIC connection failed"@,
            ConnectionError::AcceptBi { .. } => "Failed to accept bidi stream"@,
            ConnectionError::Handshake { .. } => "Handshake failed"@,
            ConnectionError::NotAuthorized {  } => "Client not authorized"@,
        }
    }

    /// What failed, as a line of text.
    pub fn message(&self) -> (message: String)
        ensures
            message@ == self.text(),
            self is Connection ==> message@ == "QUIC connection failed"@,
            self is AcceptBi ==> message@ == "Failed to accept bidi stream"@,
            self is Handshake ==> message@ == "Handshake failed"@,
            self is NotAuthorized ==> message@ == "Client not authorized"@,
    {
        match self {
            ConnectionError::Connection { .. } => "QUIC connection failed".to_owned(),
            ConnectionError::AcceptBi { .. } => "Failed to accept bidi stream".to_owned(),
            ConnectionError::Handshake { .. } => "Handshake failed".to_owned(),
            ConnectionError::NotAuthorized {  } => "Client not authorized".to_owned(),
        }
    }
}

/// How a client is registered. `K` is the type of the clients' public keys, and
/// `L` that of the limits on the rate of incoming data.
#[derive(Debug)]
pub struct ClientConfig<K, L> {
    /// The key that the client was authorized with.
    pub endpoint_id: K,
    /// The seconds that a write to the client may take.
    pub write_timeout_secs: u64,
    /// How many messages may wait for the client.
    pub channel_capacity: usize,
    /// Rate limit for incoming client data, if there is one.
    pub client_rx_ratelimit: Option<L>,
}

/// What the server's configuration says of every client.
#[derive(Debug, Clone, Copy)]
pub struct ClientLimits<L> {
    /// How many messages may wait for a client.
    pub channel_capacity: usize,
    /// Rate limit for incoming client data, if there is one.
    pub client_rx_ratelimit: Option<L>,
}

impl<L> ClientLimits<L> {
    /// How a client that was authorized with the key `endpoint_id` is registered.
    pub open spec fn config_for<K>(self, endpoint_id: K) -> ClientConfig<K, L> {
        ClientConfig {
            endpoint_id,
            write_timeout_secs: QUIC_WRITE_TIMEOUT_SECS,
            channel_capacity: self.channel_capacity,
            client_rx_ratelimit: self.client_rx_ratelimit,
        }
    }
}

/// What a connection waits for.
#[derive(Debug, Clone, Copy, PartialEq, Eq, Structural)]
pub enum ConnectionState {
    /// The QUIC handshake.
    Connecting,
    /// The relay stream, one per connection.
    AcceptingStream,
    /// The proof of who the client is.
    Handshaking,
    /// The access rules.
    CheckingAccess,
    /// The answer to the client on its authorization.
    Authorizing,
    /// The end of the connection: the client is registered.
    Serving,
    /// Nothing: the connection has ended.
    Finished,
}

/// The outcome of a step.
#[derive(Debug)]
pub enum ConnectionEvent<K> {
    /// The QUIC connection is established, or failed.
    Connected(Result<(), String>),
    /// The client opened its stream, or the wait for it failed.
    StreamAccepted(Result<(), String>),
    /// The relay handshake gave the client's key, or failed.
    Authenticated(Result<K, String>),
    /// The access rules allow the client, or do not.
    AccessDecided(bool),
    /// The client was told of its authorization, or the handshake failed over it.
    Authorized(Result<K, String>),
    /// The connection was closed.
    Closed,
}

/// What the owner of the connection does next.
#[derive(Debug)]
pub enum ConnectionAction<K, L> {
    /// Wait for the client to open its stream.
    AcceptStream,
    /// Run the relay handshake, challenge-based, on the stream.
    Handshake,
    /// Ask the access rules for this key.
    CheckAccess { client_key: K },
    /// Finish the handshake with this decision.
    Authorize { is_authorized: bool },
    /// Register the client, then wait for the connection to close.
    Register { config: ClientConfig<K, L> },
    /// The connection is done.
    Finish,
    /// Give the connection up with this error.
    Fail { error: ConnectionError },
}

impl ConnectionState {
    /// What follows on `event`, or `None` if this is not the outcome that is
    /// waited for. `limits` are those of every client.
    pub open spec fn next<K, L>(self, event: ConnectionEvent<K>, limits: ClientLimits<L>) -> Option<
        (ConnectionState, ConnectionAction<K, L>),
    > {
        match (self, event) {
            (ConnectionState::Connecting, ConnectionEvent::Connected(Ok(_))) => Some(
                (ConnectionState::AcceptingStream, ConnectionAction::AcceptStream),
            ),
            (ConnectionState::Connecting, ConnectionEvent::Connected(Err(source))) => Some(
                failed(ConnectionError::Connection { source }),
            ),
            (ConnectionState::AcceptingStream, ConnectionEvent::StreamAccepted(Ok(_))) => Some(
                (ConnectionState::Handshaking, ConnectionAction::Handshake),
            ),
            (ConnectionState::AcceptingStream, ConnectionEvent::StreamAccepted(Err(source))) => Some(
                failed(ConnectionError::AcceptBi { source }),
            ),
            (ConnectionState::Handshaking, ConnectionEvent::Authenticated(Ok(client_key))) => Some(
                (ConnectionState::CheckingAccess, ConnectionAction::CheckAccess { client_key }),
            ),
            (ConnectionState::Handshaking, ConnectionEvent::Authenticated(Err(source))) => Some(
                failed(ConnectionError::Handshake { source }),
            ),
            (ConnectionState::CheckingAccess, ConnectionEvent::AccessDecided(is_authorized)) => Some(
                (ConnectionState::Authorizing, ConnectionAction::Authorize { is_authorized }),
            ),
            (ConnectionState::Authorizing, ConnectionEvent::Authorized(Ok(endpoint_id))) => Some(
                (
                    ConnectionState::Serving,
                    ConnectionAction::Register { config: limits.config_for(endpoint_id) },
                ),
            ),
            (ConnectionState::Authorizing, ConnectionEvent::Authorized(Err(source))) => Some(
                failed(ConnectionError::Handshake { source }),
            ),
            (ConnectionState::Serving, ConnectionEvent::Closed) => Some(
                (ConnectionState::Finished, ConnectionAction::Finish),
            ),
            _ => None,
        }
    }

    /// Decides what follows on the outcome of a step. Returns `None` for an
    /// outcome that is not waited for.
    pub fn on_event<K, L>(self, event: ConnectionEvent<K>, limits: ClientLimits<L>) -> (next: Option<
        (ConnectionState, ConnectionAction<K, L>),
    >)
        ensures
            next == self.next(event, limits),
            next matches Some((_, ConnectionAction::Register { config })) ==> {
                &&& event matches ConnectionEvent::Authorized(Ok(client_key))
                &&& config.endpoint_id == client_key
                &&& config.write_timeout_secs == QUIC_WRITE_TIMEOUT_SECS
                &&& config.channel_capacity == limits.channel_capacity
                &&& config.client_rx_ratelimit == limits.client_rx_ratelimit
            },
    {
        match (self, event) {
            (ConnectionState::Connecting, ConnectionEvent::Connected(outcome)) => match outcome {
                Ok(()) => Some((ConnectionState::AcceptingStream, ConnectionAction::AcceptStream)),
                Err(source) => Some(Self::fail(ConnectionError::Connection { source })),
            },
            // Accept the relay bidi stream (one per connection).
            (
                ConnectionState::AcceptingStream,
                ConnectionEvent::StreamAccepted(outcome),
            ) => match outcome {
                Ok(()) => Some((ConnectionState::Handshaking, ConnectionAction::Handshake)),
                Err(source) => Some(Self::fail(ConnectionError::AcceptBi { source })),
            },
            (
                ConnectionState::Handshaking,
                ConnectionEvent::Authenticated(outcome),
            ) => match outcome {
                Ok(client_key) => Some(
                    (ConnectionState::CheckingAccess, ConnectionAction::CheckAccess { client_key }),
                ),
                Err(source) => Some(Self::fail(ConnectionError::Handshake { source })),
            },
            (
                ConnectionState::CheckingAccess,
                ConnectionEvent::AccessDecided(is_authorized),
            ) => Some((ConnectionState::Authorizing, ConnectionAction::Authorize { is_authorized })),
            (ConnectionState::Authorizing, ConnectionEvent::Authorized(outcome)) => match outcome {
                Ok(endpoint_id) => {
                    let config = ClientConfig {
                        endpoint_id,
                        write_timeout_secs: QUIC_WRITE_TIMEOUT_SECS,
                        channel_capacity: limits.channel_capacity,
                        client_rx_ratelimit: limits.client_rx_ratelimit,
                    };
                    Some((ConnectionState::Serving, ConnectionAction::Register { config }))
                },
                Err(source) => Some(Self::fail(ConnectionError::Handshake { source })),
            },
            (ConnectionState::Serving, ConnectionEvent::Closed) => Some(
                (ConnectionState::Finished, ConnectionAction::Finish),
            ),
            _ => None,
        }
    }

    /// Gives the connection up.
    fn fail<K, L>(error: ConnectionError) -> (next: (ConnectionState, ConnectionAction<K, L>))
        ensures
            next == failed::<K, L>(error),
    {
        (ConnectionState::Finished, ConnectionAction::Fail { error })
    }
}

/// The connection is given up with `error`.
pub open spec fn failed<K, L>(error: ConnectionError) -> (
    ConnectionState,
    ConnectionAction<K, L>,
) {
    (ConnectionState::Finished, ConnectionAction::Fail { error })
}

/// The actions that `events` lead to from `state`, and what is waited for then.
/// `None` if one of the events is not waited for when it comes.
pub open spec fn connection_run<K, L>(
    state: ConnectionState,
    events: Seq<ConnectionEvent<K>>,
    limits: ClientLimits<L>,
) -> Option<(ConnectionState, Seq<ConnectionAction<K, L>>)>
    decreases events.len(),
{
    if events.len() == 0 {
        Some((state, Seq::empty()))
    } else {
        match state.next(events[0], limits) {
            None => None,
            Some((next, action)) => match connection_run(
                next,
                events.drop_first(),
                limits,
            ) {
                None => None,
                Some((last, actions)) => Some((last, seq![action] + actions)),
            },
        }
    }
}

/// A client is served only after its connection was established, its stream was
/// accepted, the handshake gave its key, the access rules were asked for that
/// very key, and the handshake was finished with their decision. It is
/// registered then, once, with the key that it was authorized with and under the
/// configured limits.
pub proof fn served_only_after_authorization<K, L>(
    events: Seq<ConnectionEvent<K>>,
    limits: ClientLimits<L>,
)
    requires
        connection_run(ConnectionState::Connecting, events, limits) matches Some(
            (last, _),
        ) && last == ConnectionState::Serving,
    ensures
        events.len() == 5,
        events[0] matches ConnectionEvent::Connected(Ok(_)),
        events[1] matches ConnectionEvent::StreamAccepted(Ok(_)),
        events[2] matches ConnectionEvent::Authenticated(Ok(client_key)) && events[3] matches ConnectionEvent::AccessDecided(
            is_authorized,
        ) && events[4] matches ConnectionEvent::Authorized(Ok(endpoint_id)) && (connection_run(
            ConnectionState::Connecting,
            events,
            limits,
        )->0).1 == seq![
            ConnectionAction::AcceptStream,
            ConnectionAction::Handshake,
            ConnectionAction::CheckAccess { client_key },
            ConnectionAction::Authorize { is_authorized },
            ConnectionAction::Register {
                config: limits.config_for(endpoint_id),
            },
        ],
{
    reveal_with_fuel(connection_run, 8);
}

/// Nothing follows once a connection is given up or done, so that a client
/// whose connection is given up is not registered. Every run ends after at most
/// six steps.
pub proof fn the_last_step_is_final<K, L>(
    events: Seq<ConnectionEvent<K>>,
    limits: ClientLimits<L>,
)
    requires
        connection_run(ConnectionState::Connecting, events, limits) is Some,
    ensures
        ({
            let (last, actions) = connection_run(
                ConnectionState::Connecting,
                events,
                limits,
            )->0;
            &&& actions.len() == events.len() <= 6
            &&& forall|i: int|
                0 <= i < actions.len() && (#[trigger] actions[i] is Fail || actions[i] is Finish)
                    ==> i == actions.len() - 1 && last == ConnectionState::Finished
            &&& forall|i: int, j: int|
                0 <= i < actions.len() && 0 <= j < actions.len() && #[trigger] actions[i] is Fail
                    ==> !(#[trigger] actions[j] is Register)
        }),
{
    reveal_with_fuel(connection_run, 8);
}

/// A client that the access rules refuse is told so. When the handshake fails
/// over it, the connection is given up with that error, and the client was
/// never registered.
pub proof fn refused_client_is_told<K, L>(client_key: K, source: String, limits: ClientLimits<L>)
    ensures
        connection_run(
            ConnectionState::Connecting,
            seq![
                ConnectionEvent::Connected(Ok(())),
                ConnectionEvent::StreamAccepted(Ok(())),
                ConnectionEvent::Authenticated(Ok(client_key)),
                ConnectionEvent::AccessDecided(false),
                ConnectionEvent::Authorized(Err(source)),
            ],
            limits,
        ) == Some(
            (
                ConnectionState::Finished,
                seq![
                    ConnectionAction::<K, L>::AcceptStream,
                    ConnectionAction::Handshake,
                    ConnectionAction::CheckAccess { client_key },
                    ConnectionAction::Authorize { is_authorized: false },
                    ConnectionAction::Fail { error: ConnectionError::Handshake { source } },
                ],
            ),
        ),
{
    reveal_with_fuel(connection_run, 8);
}

/// A client whose connection, stream, handshake and authorization all succeed is
/// registered, whatever the limits and whatever the access rules said: with the
/// key that it was authorized with, the write timeout of the transport, and the
/// configured capacity and rate limit. When its connection closes, that is the
/// end.
pub proof fn authorized_client_is_registered<K, L>(
    client_key: K,
    is_authorized: bool,
    endpoint_id: K,
    limits: ClientLimits<L>,
)
    ensures
        ({
            let events = seq![
                ConnectionEvent::Connected(Ok(())),
                ConnectionEvent::StreamAccepted(Ok(())),
                ConnectionEvent::Authenticated(Ok(client_key)),
                ConnectionEvent::AccessDecided(is_authorized),
                ConnectionEvent::Authorized(Ok(endpoint_id)),
                ConnectionEvent::Closed,
            ];
            &&& connection_run(ConnectionState::Connecting, events, limits) matches Some(
                (last, actions),
            )
            &&& last == ConnectionState::Finished
            &&& actions.len() == 6
            &&& actions[0] is AcceptStream
            &&& actions[1] is Handshake
            &&& actions[2] == ConnectionAction::<K, L>::CheckAccess { client_key }
            &&& actions[3] == ConnectionAction::<K, L>::Authorize { is_authorized }
            &&& actions[4] matches ConnectionAction::Register { config }
            &&& config.endpoint_id == endpoint_id
            &&& config.write_timeout_secs == QUIC_WRITE_TIMEOUT_SECS
            &&& config.channel_capacity == limits.channel_capacity
            &&& config.client_rx_ratelimit == limits.client_rx_ratelimit
            &&& actions[5] is Finish
        }),
{
    reveal_with_fuel(connection_run, 8);
}

/// However a connection goes, a client is registered only as its authorization
/// succeeds: with the key that came of it, the write timeout of the transport,
/// and the configured capacity and rate limit.
pub proof fn registered_as_configured<K, L>(
    events: Seq<ConnectionEvent<K>>,
    limits: ClientLimits<L>,
    i: int,
)
    requires
        connection_run(ConnectionState::Connecting, events, limits) is Some,
        0 <= i < events.len(),
    ensures
        ({
            let actions = (connection_run(ConnectionState::Connecting, events, limits)->0).1;
            actions[i] is Register <==> (events[i] matches ConnectionEvent::Authorized(Ok(_)))
        }),
        ({
            let actions = (connection_run(ConnectionState::Connecting, events, limits)->0).1;
            actions[i] matches ConnectionAction::Register { config } ==> {
                &&& events[i] matches ConnectionEvent::Authorized(Ok(endpoint_id))
                &&& config.endpoint_id == endpoint_id
                &&& config.write_timeout_secs == QUIC_WRITE_TIMEOUT_SECS
                &&& config.channel_capacity == limits.channel_capacity
                &&& config.client_rx_ratelimit == limits.client_rx_ratelimit
            }
        }),
{
    reveal_with_fuel(connection_run, 8);
    the_last_step_is_final(events, limits);
}

/// The cause of a step that failed, if it did.
pub open spec fn failure<K>(event: ConnectionEvent<K>) -> Option<String> {
    match event {
        ConnectionEvent::Connected(Err(source)) => Some(source),
        ConnectionEvent::StreamAccepted(Err(source)) => Some(source),
        ConnectionEvent::Authenticated(Err(source)) => Some(source),
        ConnectionEvent::Authorized(Err(source)) => Some(source),
        _ => None,
    }
}

/// The steps of a connection come in one order, each once, and nothing else is
/// heard. The connection is given up exactly at a step that fails, with the
/// error of that step and its cause.
pub proof fn steps_come_in_order<K, L>(
    events: Seq<ConnectionEvent<K>>,
    limits: ClientLimits<L>,
    i: int,
)
    requires
        connection_run(ConnectionState::Connecting, events, limits) is Some,
        0 <= i < events.len(),
    ensures
        i < 6,
        i == 0 <==> events[i] is Connected,
        i == 1 <==> events[i] is StreamAccepted,
        i == 2 <==> events[i] is Authenticated,
        i == 3 <==> events[i] is AccessDecided,
        i == 4 <==> events[i] is Authorized,
        i == 5 <==> events[i] is Closed,
        i < events.len() - 1 ==> failure(events[i]) is None,
        ({
            let actions = (connection_run(ConnectionState::Connecting, events, limits)->0).1;
            match failure(events[i]) {
                None => !(actions[i] is Fail),
                Some(cause) => actions[i] matches ConnectionAction::Fail { error } && (if i == 0 {
                    error matches ConnectionError::Connection { source } && source == cause
                } else if i == 1 {
                    error matches ConnectionError::AcceptBi { source } && source == cause
                } else {
                    error matches ConnectionError::Handshake { source } && source == cause
                }),
            }
        }),
{
    reveal_with_fuel(connection_run, 8);
    the_last_step_is_final(events, limits);
}

/// A step that fails ends the connection, and any other leads on to the next,
/// up to the sixth: the steps in their order, all but the last without a
/// failure, are always heard.
pub proof fn steps_in_order_are_heard<K, L>(
    events: Seq<ConnectionEvent<K>>,
    limits: ClientLimits<L>,
)
    requires
        events.len() <= 6,
        events.len() > 0 ==> events[0] is Connected,
        events.len() > 1 ==> events[1] is StreamAccepted,
        events.len() > 2 ==> events[2] is Authenticated,
        events.len() > 3 ==> events[3] is AccessDecided,
        events.len() > 4 ==> events[4] is Authorized,
        events.len() > 5 ==> events[5] is Closed,
        forall|i: int| 0 <= i < events.len() - 1 ==> failure(#[trigger] events[i]) is None,
    ensures
        connection_run(ConnectionState::Connecting, events, limits) is Some,
{
    reveal_with_fuel(connection_run, 8);
    assert(events.len() > 1 ==> failure(events[0]) is None);
    assert(events.len() > 2 ==> failure(events[1]) is None);
    assert(events.len() > 3 ==> failure(events[2]) is None);
    assert(events.len() > 5 ==> failure(events[4]) is None);
}

} // verus!

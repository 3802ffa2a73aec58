//! The decisions of the QUIC relay server.
//!
//! The server accepts QUIC connections from relay clients. What it does next is
//! decided here, from what has happened; the sockets, tasks and streams belong
//! to its owner, who performs each action and reports back what came of it.

use vstd::prelude::*;

verus! {

/// ALPN protocol identifier for QUIC relay transport: `/iroh-relay/0`.
pub const ALPN_QUIC_RELAY: [u8; 13] = [
    0x2f, 0x69, 0x72, 0x6f, 0x68, 0x2d, 0x72, 0x65, 0x6c, 0x61, 0x79, 0x2f, 0x30,
];

/// How many bidirectional streams a client may have open.
pub const MAX_BIDI_STREAMS: u32 = 1024;

/// How many unidirectional streams a client may have open.
pub const MAX_UNI_STREAMS: u32 = 0;

/// The seconds without traffic after which a connection is given up.
pub const MAX_IDLE_TIMEOUT_SECS: u64 = 60;

/// The seconds that a write to a client may take.
pub const QUIC_WRITE_TIMEOUT_SECS: u64 = 2;

/// The code that the endpoint is closed with.
pub const CLOSE_CODE: u32 = 0;

/// The reason that the endpoint is closed with.
pub const CLOSE_REASON: &'static str = "shutdown";

/// The protocols that the server offers and the client asks for:
/// [`ALPN_QUIC_RELAY`] and no other.
pub fn alpn_protocols() -> (protocols: Vec<Vec<u8>>)
    ensures
        protocols@.len() == 1,
        protocols@[0]@ == ALPN_QUIC_RELAY@,
        protocols@[0]@.map_values(|b: u8| b as char) == "/iroh-relay/0"@,
{
    let mut protocols: Vec<Vec<u8>> = Vec::new();
    protocols.push(vstd::slice::slice_to_vec(ALPN_QUIC_RELAY.as_slice()));
    proof {
        reveal_strlit("/iroh-relay/0");
        assert(protocols@[0]@.map_values(|b: u8| b as char) =~= "/iroh-relay/0"@);
    }
    protocols
}

/// Server spawn errors, each with the text of what caused it.
#[derive(Debug)]
#[non_exhaustive]
pub enum SpawnError {
    CryptoConfig { source: String },
    Endpoint { source: String },
    LocalAddr { source: String },
}

impl SpawnError {
    /// What failed.
    pub open spec fn text(self) -> Seq<char> {
        match self {
            SpawnError::CryptoConfig { .. } => "Failed to create QUIC server config"@,
            SpawnError::Endpoint { .. } => "Unable to spawn QUIC relay endpoint"@,
            SpawnError::LocalAddr { .. } => "Unable to get local address"@,
        }
    }

    /// What failed, as a line of text.
    pub fn message(&self) -> (message: String)
        ensures
            message@ == self.text(),
            self is CryptoConfig ==> message@ == "Failed to create QUIC server config"@,
            self is Endpoint ==> message@ == "Unable to spawn QUIC relay endpoint"@,
            self is LocalAddr ==> message@ == "Unable to get local address"@,
    {
        match self {
            SpawnError::CryptoConfig { .. } => "Failed to create QUIC server config".to_owned(),
            SpawnError::Endpoint { .. } => "Unable to spawn QUIC relay endpoint".to_owned(),
            SpawnError::LocalAddr { .. } => "Unable to get local address".to_owned(),
        }
    }
}

/// What has to succeed, in this order, before the server runs.
#[derive(Debug, Clone, Copy, PartialEq, Eq, Structural)]
pub enum SpawnStage {
    /// The TLS configuration is made into a QUIC one.
    CryptoConfig,
    /// The endpoint is bound to its address.
    Endpoint,
    /// The endpoint is asked for the address it got.
    LocalAddr,
}

impl SpawnStage {
    /// What comes after this stage, or `None` if the server runs.
    pub open spec fn following(self) -> Option<SpawnStage> {
        match self {
            SpawnStage::CryptoConfig => Some(SpawnStage::Endpoint),
            SpawnStage::Endpoint => Some(SpawnStage::LocalAddr),
            SpawnStage::LocalAddr => None,
        }
    }

    /// The error of this stage.
    pub open spec fn error(self, source: String) -> SpawnError {
        match self {
            SpawnStage::CryptoConfig => SpawnError::CryptoConfig { source },
            SpawnStage::Endpoint => SpawnError::Endpoint { source },
            SpawnStage::LocalAddr => SpawnError::LocalAddr { source },
        }
    }

    /// Goes on from this stage: to the next one if it succeeded, and out with
    /// its error if it failed.
    pub fn after(self, outcome: Result<(), String>) -> (res: Result<
        Option<SpawnStage>,
        SpawnError,
    >)
        ensures
            res == (match outcome {
                Ok(_) => Ok::<Option<SpawnStage>, SpawnError>(self.following()),
                Err(source) => Err(self.error(source)),
            }),
    {
        match outcome {
            Ok(()) => Ok(
                match self {
                    SpawnStage::CryptoConfig => Some(SpawnStage::Endpoint),
                    SpawnStage::Endpoint => Some(SpawnStage::LocalAddr),
                    SpawnStage::LocalAddr => None,
                },
            ),
            Err(source) => Err(
                match self {
                    SpawnStage::CryptoConfig => SpawnError::CryptoConfig { source },
                    SpawnStage::Endpoint => SpawnError::Endpoint { source },
                    SpawnStage::LocalAddr => SpawnError::LocalAddr { source },
                },
            ),
        }
    }
}

/// What comes of a spawn that goes on from `stage` when its stages have these
/// outcomes in turn. `None` if there are too few of them to tell.
pub open spec fn spawn_run(stage: SpawnStage, outcomes: Seq<Result<(), String>>) -> Option<
    Result<(), SpawnError>,
>
    decreases outcomes.len(),
{
    if outcomes.len() == 0 {
        None
    } else {
        match outcomes[0] {
            Err(source) => Some(Err(stage.error(source))),
            Ok(_) => match stage.following() {
                None => Some(Ok(())),
                Some(next) => spawn_run(next, outcomes.drop_first()),
            },
        }
    }
}

/// A server runs exactly when all stages succeed: the QUIC configuration, then
/// the endpoint, then its address. Otherwise the error is that of the first
/// stage that failed, with its cause.
pub proof fn every_stage_is_needed(
    crypto_config: Result<(), String>,
    endpoint: Result<(), String>,
    local_addr: Result<(), String>,
)
    ensures
        spawn_run(SpawnStage::CryptoConfig, seq![crypto_config, endpoint, local_addr]) == Some(
            match (crypto_config, endpoint, local_addr) {
                (Err(source), _, _) => Err::<(), SpawnError>(SpawnError::CryptoConfig { source }),
                (_, Err(source), _) => Err(SpawnError::Endpoint { source }),
                (_, _, Err(source)) => Err(SpawnError::LocalAddr { source }),
                _ => Ok(()),
            },
        ),
{
    reveal_with_fuel(spawn_run, 4);
    let outcomes = seq![crypto_config, endpoint, local_addr];
    assert(outcomes.drop_first()[0] == endpoint);
    assert(outcomes.drop_first().drop_first()[0] == local_addr);
}

/// The phases in the life of the accept loop.
#[derive(Debug, Clone, Copy, PartialEq, Eq, Structural)]
pub enum ServerState {
    /// Connections are accepted.
    Accepting,
    /// The endpoint is closed, and its connections are running out.
    Closing,
    /// The tasks of the connections are being aborted.
    Aborting,
    /// The tasks that are left are being joined.
    Draining,
    /// The server has shut down.
    Stopped,
    /// The task of a connection panicked, and took the server with it.
    Panicked,
}

/// What the accept loop hears of.
#[derive(Debug, Clone, Copy, PartialEq, Eq, Structural)]
pub enum ServerEvent {
    /// A shutdown was asked for.
    Cancelled,
    /// A client is connecting.
    Incoming,
    /// The endpoint accepts no more connections.
    EndpointClosed,
    /// The task of a connection ended, with a panic or without; `tasks` are left.
    TaskJoined { panicked: bool, tasks: usize },
    /// The endpoint has no connections any more.
    Idle,
    /// All tasks were told to abort; `tasks` are to be joined.
    Aborted { tasks: usize },
}

/// What the owner of the endpoint does next.
#[derive(Debug, Clone, Copy, PartialEq, Eq, Structural)]
pub enum ServerAction {
    /// Wait for the next event.
    Wait,
    /// Start a task for the client that is connecting, then wait for the next event.
    Serve,
    /// Panic.
    Panic,
    /// Close the endpoint with [`CLOSE_CODE`] and [`CLOSE_REASON`], then wait
    /// until it is idle.
    Close,
    /// Abort all tasks.
    AbortAll,
    /// Wait for the next task to end.
    JoinNext,
    /// Nothing: the server has shut down.
    Stop,
}

/// Joins the tasks that are left, or stops if there are none.
pub open spec fn drain(tasks: usize) -> (ServerState, ServerAction) {
    if tasks == 0 {
        (ServerState::Stopped, ServerAction::Stop)
    } else {
        (ServerState::Draining, ServerAction::JoinNext)
    }
}

impl ServerState {
    /// What follows on `event`, or `None` if this phase does not wait for it.
    pub open spec fn next(self, event: ServerEvent) -> Option<(ServerState, ServerAction)> {
        match (self, event) {
            (ServerState::Accepting, ServerEvent::Incoming) => Some(
                (ServerState::Accepting, ServerAction::Serve),
            ),
            (ServerState::Accepting, ServerEvent::TaskJoined { panicked, .. }) => Some(
                if panicked {
                    (ServerState::Panicked, ServerAction::Panic)
                } else {
                    (ServerState::Accepting, ServerAction::Wait)
                },
            ),
            (ServerState::Accepting, ServerEvent::Cancelled) => Some(
                (ServerState::Closing, ServerAction::Close),
            ),
            (ServerState::Accepting, ServerEvent::EndpointClosed) => Some(
                (ServerState::Closing, ServerAction::Close),
            ),
            (ServerState::Closing, ServerEvent::Idle) => Some(
                (ServerState::Aborting, ServerAction::AbortAll),
            ),
            (ServerState::Aborting, ServerEvent::Aborted { tasks }) => Some(drain(tasks)),
            (ServerState::Draining, ServerEvent::TaskJoined { tasks, .. }) => Some(drain(tasks)),
            _ => None,
        }
    }

    /// Decides what follows on `event`. Returns `None` for an event that this
    /// phase does not wait for.
    pub fn on_event(self, event: ServerEvent) -> (next: Option<(ServerState, ServerAction)>)
        ensures
            next == self.next(event),
    {
        match self {
            ServerState::Accepting => match event {
                ServerEvent::Cancelled | ServerEvent::EndpointClosed => Some(
                    (ServerState::Closing, ServerAction::Close),
                ),
                ServerEvent::TaskJoined { panicked, .. } => {
                    if panicked {
                        Some((ServerState::Panicked, ServerAction::Panic))
                    } else {
                        Some((ServerState::Accepting, ServerAction::Wait))
                    }
                },
                ServerEvent::Incoming => Some((ServerState::Accepting, ServerAction::Serve)),
                _ => None,
            },
            ServerState::Closing => match event {
                ServerEvent::Idle => Some((ServerState::Aborting, ServerAction::AbortAll)),
                _ => None,
            },
            ServerState::Aborting => match event {
                ServerEvent::Aborted { tasks } => Some(Self::join_rest(tasks)),
                _ => None,
            },
            ServerState::Draining => match event {
                ServerEvent::TaskJoined { tasks, .. } => Some(Self::join_rest(tasks)),
                _ => None,
            },
            ServerState::Stopped | ServerState::Panicked => None,
        }
    }

    /// Joins the tasks that are left, or stops if there are none.
    fn join_rest(tasks: usize) -> (next: (ServerState, ServerAction))
        ensures
            next == drain(tasks),
    {
        if tasks == 0 {
            (ServerState::Stopped, ServerAction::Stop)
        } else {
            (ServerState::Draining, ServerAction::JoinNext)
        }
    }
}

/// The actions that `events` lead to from `state`, and the phase then. `None`
/// if one of the events is not waited for when it comes.
pub open spec fn server_run(state: ServerState, events: Seq<ServerEvent>) -> Option<
    (ServerState, Seq<ServerAction>),
>
    decreases events.len(),
{
    if events.len() == 0 {
        Some((state, Seq::empty()))
    } else {
        match state.next(events[0]) {
            None => None,
            Some((next, action)) => match server_run(next, events.drop_first()) {
                None => None,
                Some((last, actions)) => Some((last, seq![action] + actions)),
            },
        }
    }
}

/// Every event leads to one action. A task is started for each client that
/// connects, and for nothing else. The endpoint is closed when a shutdown is
/// asked for or when it accepts no more connections, and at no other time.
pub proof fn actions_have_their_causes(state: ServerState, events: Seq<ServerEvent>)
    ensures
        server_run(state, events) matches Some((_, actions)) ==> {
            &&& actions.len() == events.len()
            &&& forall|i: int|
                0 <= i < events.len() ==> {
                    &&& #[trigger] actions[i] == ServerAction::Serve <==> events[i]
                        == ServerEvent::Incoming
                    &&& actions[i] == ServerAction::Close <==> (events[i] == ServerEvent::Cancelled
                        || events[i] == ServerEvent::EndpointClosed)
                }
        },
    decreases events.len(),
{
    if events.len() > 0 && state.next(events[0]) is Some {
        let (next, action) = state.next(events[0])->0;
        let rest = events.drop_first();
        actions_have_their_causes(next, rest);
        if let Some((_, actions)) = server_run(next, rest) {
            let all = seq![action] + actions;
            assert forall|i: int| 0 <= i < events.len() implies {
                &&& #[trigger] all[i] == ServerAction::Serve <==> events[i] == ServerEvent::Incoming
                &&& all[i] == ServerAction::Close <==> (events[i] == ServerEvent::Cancelled
                    || events[i] == ServerEvent::EndpointClosed)
            } by {
                if i > 0 {
                    assert(all[i] == actions[i - 1] && events[i] == rest[i - 1]);
                }
            }
        }
    }
}

/// Once the server has left the accepting phase, no client is served any more,
/// and a panic of a task does not take the server down.
pub proof fn no_service_after_shutdown(state: ServerState, events: Seq<ServerEvent>)
    requires
        state != ServerState::Accepting,
    ensures
        server_run(state, events) matches Some((last, actions)) ==> {
            &&& !actions.contains(ServerAction::Serve)
            &&& !actions.contains(ServerAction::Panic)
            &&& last != ServerState::Accepting
        },
    decreases events.len(),
{
    if events.len() > 0 && state.next(events[0]) is Some {
        let (next, action) = state.next(events[0])->0;
        no_service_after_shutdown(next, events.drop_first());
        if let Some((last, actions)) = server_run(next, events.drop_first()) {
            let all = seq![action] + actions;
            assert forall|i: int| 0 <= i < all.len() implies all[i] != ServerAction::Serve && all[i]
                != ServerAction::Panic by {
                if i > 0 {
                    assert(all[i] == actions[i - 1]);
                    assert(actions.contains(actions[i - 1]));
                }
            }
        }
    }
}

/// A run of the server that came to its end: it waited and served, closed the
/// endpoint, aborted the tasks, joined those that were left, and stopped.
pub open spec fn orderly(actions: Seq<ServerAction>, close: int) -> bool {
    let last = actions.len() - 1;
    &&& 0 <= close
    &&& close + 1 < last
    &&& forall|i: int|
        0 <= i < close ==> (#[trigger] actions[i] == ServerAction::Wait || actions[i]
            == ServerAction::Serve)
    &&& actions[close] == ServerAction::Close
    &&& actions[close + 1] == ServerAction::AbortAll
    &&& forall|i: int| close + 1 < i < last ==> #[trigger] actions[i] == ServerAction::JoinNext
    &&& actions[last] == ServerAction::Stop
}

/// Joining the rest is a series of joins that ends in the stop.
proof fn lemma_draining(events: Seq<ServerEvent>)
    requires
        server_run(ServerState::Draining, events) matches Some((last, _)) && last
            == ServerState::Stopped,
    ensures
        ({
            let (_, actions) = server_run(ServerState::Draining, events)->0;
            &&& actions.len() > 0
            &&& forall|i: int|
                0 <= i < actions.len() - 1 ==> #[trigger] actions[i] == ServerAction::JoinNext
            &&& actions.last() == ServerAction::Stop
        }),
    decreases events.len(),
{
    let (next, action) = ServerState::Draining.next(events[0])->0;
    let rest = events.drop_first();
    let (_, actions) = server_run(next, rest)->0;
    let all = seq![action] + actions;
    if next == ServerState::Draining {
        lemma_draining(rest);
        assert forall|i: int| 0 <= i < all.len() - 1 implies #[trigger] all[i]
            == ServerAction::JoinNext by {
            if i > 0 {
                assert(all[i] == actions[i - 1]);
            }
        }
    } else {
        assert(rest.len() == 0);
    }
}

/// A server only stops in order: the endpoint is closed and idle before the
/// tasks are aborted, and every task is joined before the server stops.
pub proof fn shutdown_is_orderly(events: Seq<ServerEvent>)
    requires
        server_run(ServerState::Accepting, events) matches Some((last, _)) && last
            == ServerState::Stopped,
    ensures
        exists|close: int|
            orderly((server_run(ServerState::Accepting, events)->0).1, close),
    decreases events.len(),
{
    reveal_with_fuel(server_run, 4);
    let (next, action) = ServerState::Accepting.next(events[0])->0;
    let rest = events.drop_first();
    let (_, actions) = server_run(next, rest)->0;
    let all = seq![action] + actions;
    let run = (server_run(ServerState::Accepting, events)->0).1;
    assert(run == all);
    if next == ServerState::Accepting {
        shutdown_is_orderly(rest);
        let close = choose|close: int| orderly(actions, close);
        assert forall|i: int| 0 <= i < close + 1 implies (#[trigger] all[i] == ServerAction::Wait
            || all[i] == ServerAction::Serve) by {
            if i > 0 {
                assert(all[i] == actions[i - 1]);
            }
        }
        assert forall|i: int| close + 2 < i < all.len() - 1 implies #[trigger] all[i]
            == ServerAction::JoinNext by {
            assert(all[i] == actions[i - 1]);
        }
        assert(orderly(run, close + 1));
    } else if next == ServerState::Closing {
        let (aborting, _) = ServerState::Closing.next(rest[0])->0;
        let rest2 = rest.drop_first();
        let (draining, _) = aborting.next(rest2[0])->0;
        let rest3 = rest2.drop_first();
        let (_, tail) = server_run(draining, rest3)->0;
        if draining == ServerState::Draining {
            lemma_draining(rest3);
        }
        assert forall|i: int| 1 < i < all.len() - 1 implies #[trigger] all[i]
            == ServerAction::JoinNext by {
            if i > 2 {
                assert(all[i] == tail[i - 3]);
            }
        }
        assert(orderly(run, 0));
    }
}

/// The end of `tasks` tasks, one after the other.
pub open spec fn joined_down_from(tasks: nat) -> Seq<ServerEvent>
    decreases tasks,
{
    if tasks == 0 {
        Seq::empty()
    } else {
        seq![ServerEvent::TaskJoined { panicked: false, tasks: (tasks - 1) as usize }]
            + joined_down_from((tasks - 1) as nat)
    }
}

/// A server that is told to shut down while `tasks` tasks run stops once the
/// endpoint is idle and that many tasks were joined.
pub proof fn shutdown_completes(tasks: usize)
    ensures
        server_run(
            ServerState::Accepting,
            seq![ServerEvent::Cancelled, ServerEvent::Idle, ServerEvent::Aborted { tasks }]
                + joined_down_from(tasks as nat),
        ) matches Some((last, _)) && last == ServerState::Stopped,
{
    reveal_with_fuel(server_run, 4);
    let joins = joined_down_from(tasks as nat);
    let events = seq![ServerEvent::Cancelled, ServerEvent::Idle, ServerEvent::Aborted { tasks }]
        + joins;
    let (state, _) = drain(tasks);
    lemma_joins(state, tasks);
    assert(events.drop_first().drop_first().drop_first() =~= joins);
}

/// Joining all the tasks that are left stops the server.
proof fn lemma_joins(state: ServerState, tasks: usize)
    requires
        state == drain(tasks).0,
    ensures
        server_run(state, joined_down_from(tasks as nat)) matches Some((last, _)) && last
            == ServerState::Stopped,
    decreases tasks,
{
    if tasks > 0 {
        let left = (tasks - 1) as usize;
        lemma_joins(drain(left).0, left);
        assert(joined_down_from(tasks as nat).drop_first() =~= joined_down_from(left as nat));
    }
}

/// Whether `event` leaves an accepting server accepting: a client connects, or a
/// task ends without a panic.
pub open spec fn is_calm(event: ServerEvent) -> bool {
    event == ServerEvent::Incoming || (event matches ServerEvent::TaskJoined { panicked, .. }
        && !panicked)
}

/// Whether all `events` are calm.
pub open spec fn all_calm(events: Seq<ServerEvent>) -> bool {
    forall|i: int| 0 <= i < events.len() ==> is_calm(#[trigger] events[i])
}

/// Whether `event` asks for a shutdown.
pub open spec fn is_request(event: ServerEvent) -> bool {
    event == ServerEvent::Cancelled || event == ServerEvent::EndpointClosed
}

/// Whether `event` is the end of a task, with a panic or without.
pub open spec fn is_join(event: ServerEvent) -> bool {
    event is TaskJoined
}

/// How many tasks `event` says are left.
pub open spec fn tasks_left(event: ServerEvent) -> usize {
    match event {
        ServerEvent::TaskJoined { tasks, .. } => tasks,
        ServerEvent::Aborted { tasks } => tasks,
        _ => 0,
    }
}

/// What an accepting server does on calm events: it serves each client that
/// connects, and waits on.
pub open spec fn service(events: Seq<ServerEvent>) -> Seq<ServerAction> {
    Seq::new(
        events.len(),
        |i: int|
            if events[i] == ServerEvent::Incoming {
                ServerAction::Serve
            } else {
                ServerAction::Wait
            },
    )
}

/// Calm events change nothing for those that follow.
proof fn lemma_calm_then(calm: Seq<ServerEvent>, rest: Seq<ServerEvent>)
    requires
        all_calm(calm),
    ensures
        match server_run(ServerState::Accepting, rest) {
            None => server_run(ServerState::Accepting, calm + rest) is None,
            Some((last, actions)) => server_run(ServerState::Accepting, calm + rest) == Some(
                (last, service(calm) + actions),
            ),
        },
    decreases calm.len(),
{
    let events = calm + rest;
    if calm.len() == 0 {
        assert(events =~= rest);
        if let Some((_, actions)) = server_run(ServerState::Accepting, rest) {
            assert(service(calm) + actions =~= actions);
        }
    } else {
        let fewer = calm.drop_first();
        assert forall|i: int| 0 <= i < fewer.len() implies is_calm(#[trigger] fewer[i]) by {
            assert(fewer[i] == calm[i + 1]);
        }
        lemma_calm_then(fewer, rest);
        assert(events.drop_first() =~= fewer + rest);
        assert(is_calm(calm[0]) && events[0] == calm[0]);
        if let Some((_, actions)) = server_run(ServerState::Accepting, rest) {
            assert(seq![service(calm)[0]] + (service(fewer) + actions) =~= service(calm) + actions);
        }
    }
}

/// A server goes on accepting for as long as clients connect and their tasks end
/// without a panic, whatever number of tasks is left. It serves every client.
pub proof fn service_goes_on(events: Seq<ServerEvent>)
    requires
        all_calm(events),
    ensures
        server_run(ServerState::Accepting, events) matches Some((last, actions)) && {
            &&& last == ServerState::Accepting
            &&& actions.len() == events.len()
            &&& forall|i: int|
                0 <= i < events.len() ==> #[trigger] actions[i] == (if events[i]
                    == ServerEvent::Incoming {
                    ServerAction::Serve
                } else {
                    ServerAction::Wait
                })
        },
{
    lemma_calm_then(events, Seq::empty());
    assert(events + Seq::<ServerEvent>::empty() =~= events);
    assert(service(events) + Seq::<ServerAction>::empty() =~= service(events));
}

/// A task that panics while the server is accepting takes it down, whatever
/// number of tasks is left, and nothing is heard any more.
pub proof fn a_panic_ends_the_service(calm: Seq<ServerEvent>, tasks: usize, later: ServerEvent)
    requires
        all_calm(calm),
    ensures
        ({
            let events = calm.push(ServerEvent::TaskJoined { panicked: true, tasks });
            &&& server_run(ServerState::Accepting, events) matches Some((last, actions))
            &&& last == ServerState::Panicked
            &&& actions.last() == ServerAction::Panic
            &&& server_run(ServerState::Accepting, events.push(later)) is None
        }),
{
    reveal_with_fuel(server_run, 3);
    let panic = ServerEvent::TaskJoined { panicked: true, tasks };
    lemma_calm_then(calm, seq![panic]);
    lemma_calm_then(calm, seq![panic, later]);
    assert(calm + seq![panic] =~= calm.push(panic));
    assert(calm + seq![panic, later] =~= calm.push(panic).push(later));
    assert(seq![panic, later].drop_first()[0] == later);
}

/// A run up to one of its events, and the step that this event leads to.
proof fn lemma_server_prefix(state: ServerState, events: Seq<ServerEvent>, i: int)
    requires
        server_run(state, events) is Some,
        0 <= i < events.len(),
    ensures
        ({
            let actions = (server_run(state, events)->0).1;
            &&& actions.len() == events.len()
            &&& server_run(state, events.take(i)) matches Some((before, _))
            &&& before.next(events[i]) matches Some((_, action))
            &&& action == actions[i]
        }),
    decreases events.len(),
{
    actions_have_their_causes(state, events);
    let (next, action) = state.next(events[0])->0;
    let rest = events.drop_first();
    let (_, later) = server_run(next, rest)->0;
    let actions = (server_run(state, events)->0).1;
    assert(actions == seq![action] + later);
    if i == 0 {
        assert(events.take(0) =~= Seq::empty());
    } else {
        lemma_server_prefix(next, rest, i - 1);
        assert(events.take(i).drop_first() =~= rest.take(i - 1));
        assert(actions[i] == later[i - 1] && events[i] == rest[i - 1]);
    }
}

/// A server is still accepting just when all that it heard was calm.
proof fn lemma_accepting(events: Seq<ServerEvent>)
    requires
        server_run(ServerState::Accepting, events) is Some,
    ensures
        (server_run(ServerState::Accepting, events)->0).0 == ServerState::Accepting <==> all_calm(
            events,
        ),
    decreases events.len(),
{
    if all_calm(events) {
        service_goes_on(events);
    } else {
        let (next, _) = ServerState::Accepting.next(events[0])->0;
        let rest = events.drop_first();
        if next == ServerState::Accepting {
            lemma_accepting(rest);
            if all_calm(rest) {
                assert forall|i: int| 0 <= i < events.len() implies is_calm(#[trigger] events[i]) by {
                    if i > 0 {
                        assert(events[i] == rest[i - 1]);
                    }
                }
            }
        } else {
            no_service_after_shutdown(next, rest);
        }
    }
}

/// The server panics exactly when it hears of a task that panicked while it is
/// accepting. The end of any other task, and any panic once a shutdown was asked
/// for, does not take it down.
pub proof fn panics_have_their_cause(events: Seq<ServerEvent>, i: int)
    requires
        server_run(ServerState::Accepting, events) is Some,
        0 <= i < events.len(),
    ensures
        (server_run(ServerState::Accepting, events)->0).1[i] == ServerAction::Panic <==> {
            &&& events[i] matches ServerEvent::TaskJoined { panicked, .. }
            &&& panicked
            &&& all_calm(events.take(i))
        },
{
    lemma_server_prefix(ServerState::Accepting, events, i);
    lemma_accepting(events.take(i));
    let before = (server_run(ServerState::Accepting, events.take(i))->0).0;
    if before != ServerState::Accepting {
        no_service_after_shutdown(before, seq![events[i]]);
        reveal_with_fuel(server_run, 2);
        let (_, actions) = server_run(before, seq![events[i]])->0;
        assert(actions.contains(actions[0]));
    }
}

/// Joins that come to an end: some tasks are left after each but the last.
pub open spec fn joins_end(joins: Seq<ServerEvent>) -> bool {
    forall|i: int|
        0 <= i < joins.len() ==> {
            &&& is_join(#[trigger] joins[i])
            &&& tasks_left(joins[i]) == 0 <==> i == joins.len() - 1
        }
}

/// Joining goes on until no task is left.
proof fn lemma_joined_to_the_end(joins: Seq<ServerEvent>)
    requires
        joins.len() > 0,
        joins_end(joins),
    ensures
        server_run(ServerState::Draining, joins) matches Some((last, actions)) && {
            &&& last == ServerState::Stopped
            &&& actions.len() == joins.len()
            &&& forall|i: int|
                0 <= i < joins.len() - 1 ==> #[trigger] actions[i] == ServerAction::JoinNext
            &&& actions.last() == ServerAction::Stop
        },
    decreases joins.len(),
{
    reveal_with_fuel(server_run, 2);
    assert(is_join(joins[0]));
    let rest = joins.drop_first();
    if joins.len() > 1 {
        assert forall|i: int| 0 <= i < rest.len() implies {
            &&& is_join(#[trigger] rest[i])
            &&& tasks_left(rest[i]) == 0 <==> i == rest.len() - 1
        } by {
            assert(rest[i] == joins[i + 1]);
        }
        lemma_joined_to_the_end(rest);
        lemma_draining(joins);
    } else {
        assert(rest =~= Seq::empty());
    }
}

/// A shutdown that is asked for comes to its end, in order, whatever the server
/// served before, however many tasks are left, and whether they panic or not:
/// the endpoint is closed, then the tasks are aborted, then each of them is
/// joined, then the server stops.
pub proof fn shutdown_comes_to_its_end(
    calm: Seq<ServerEvent>,
    request: ServerEvent,
    tasks: usize,
    joins: Seq<ServerEvent>,
)
    requires
        all_calm(calm),
        is_request(request),
        joins_end(joins),
        joins.len() == 0 <==> tasks == 0,
    ensures
        ({
            let events = calm + (seq![request, ServerEvent::Idle, ServerEvent::Aborted { tasks }]
                + joins);
            &&& server_run(ServerState::Accepting, events) matches Some((last, actions))
            &&& last == ServerState::Stopped
            &&& actions.len() == events.len()
            &&& forall|i: int|
                0 <= i < calm.len() ==> (#[trigger] actions[i] == ServerAction::Wait || actions[i]
                    == ServerAction::Serve)
            &&& actions[calm.len() as int] == ServerAction::Close
            &&& actions[calm.len() as int + 1] == ServerAction::AbortAll
            &&& forall|i: int|
                calm.len() + 1 < i < actions.len() - 1 ==> #[trigger] actions[i]
                    == ServerAction::JoinNext
            &&& actions.last() == ServerAction::Stop
        }),
{
    reveal_with_fuel(server_run, 4);
    let tail = seq![request, ServerEvent::Idle, ServerEvent::Aborted { tasks }] + joins;
    lemma_calm_then(calm, tail);
    assert(tail.drop_first()[0] == ServerEvent::Idle);
    assert(tail.drop_first().drop_first()[0] == ServerEvent::Aborted { tasks });
    assert(tail.drop_first().drop_first().drop_first() =~= joins);
    if tasks > 0 {
        lemma_joined_to_the_end(joins);
    } else {
        assert(joins =~= Seq::empty());
    }
    let (state, _) = drain(tasks);
    let (_, later) = server_run(state, joins)->0;
    let (_, actions) = server_run(ServerState::Accepting, tail)->0;
    assert(actions =~= seq![
        ServerAction::Close,
        ServerAction::AbortAll,
        drain(tasks).1,
    ] + later);
    let all = service(calm) + actions;
    let c = calm.len() as int;
    assert forall|i: int| c + 1 < i < all.len() - 1 implies #[trigger] all[i]
        == ServerAction::JoinNext by {
        assert(all[i] == actions[i - c]);
        if i > c + 2 {
            assert(actions[i - c] == later[i - c - 3]);
        }
    }
}

/// How many of the events come before the first that is not calm.
pub open spec fn calm_at_first(events: Seq<ServerEvent>) -> nat
    decreases events.len(),
{
    if events.len() == 0 || !is_calm(events[0]) {
        0
    } else {
        1 + calm_at_first(events.drop_first())
    }
}

/// What a draining server hears: joins only, until no task is left.
proof fn lemma_draining_shape(events: Seq<ServerEvent>)
    requires
        server_run(ServerState::Draining, events) is Some,
    ensures
        forall|i: int| 0 <= i < events.len() ==> is_join(#[trigger] events[i]),
        forall|i: int| 0 <= i < events.len() - 1 ==> tasks_left(#[trigger] events[i]) > 0,
        (server_run(ServerState::Draining, events)->0).0 == (if events.len() > 0 && tasks_left(
            events.last(),
        ) == 0 {
            ServerState::Stopped
        } else {
            ServerState::Draining
        }),
    decreases events.len(),
{
    if events.len() > 0 {
        let (next, _) = ServerState::Draining.next(events[0])->0;
        let rest = events.drop_first();
        if next == ServerState::Draining {
            lemma_draining_shape(rest);
            assert forall|i: int| 0 <= i < events.len() implies is_join(#[trigger] events[i]) by {
                if i > 0 {
                    assert(events[i] == rest[i - 1]);
                }
            }
            assert forall|i: int| 0 <= i < events.len() - 1 implies tasks_left(
                #[trigger] events[i],
            ) > 0 by {
                if i > 0 {
                    assert(events[i] == rest[i - 1]);
                }
            }
        } else {
            assert(rest.len() == 0);
        }
    }
}

/// What a server that was asked to shut down hears, from that request on.
pub open spec fn winds_down(events: Seq<ServerEvent>, last: ServerState) -> bool {
    &&& events.len() > 0
    &&& is_request(events[0])
    &&& events.len() > 1 ==> events[1] == ServerEvent::Idle
    &&& events.len() > 2 ==> events[2] is Aborted
    &&& forall|i: int| 2 < i < events.len() ==> is_join(#[trigger] events[i])
    &&& forall|i: int| 2 <= i < events.len() - 1 ==> tasks_left(#[trigger] events[i]) > 0
    &&& last == (if events.len() == 1 {
        ServerState::Closing
    } else if events.len() == 2 {
        ServerState::Aborting
    } else if tasks_left(events.last()) > 0 {
        ServerState::Draining
    } else {
        ServerState::Stopped
    })
}

/// What a server hears from the request for a shutdown on.
proof fn lemma_winds_down(events: Seq<ServerEvent>)
    requires
        events.len() > 0,
        is_request(events[0]),
        server_run(ServerState::Accepting, events) is Some,
    ensures
        winds_down(events, (server_run(ServerState::Accepting, events)->0).0),
{
    reveal_with_fuel(server_run, 4);
    let rest = events.drop_first();
    let rest2 = rest.drop_first();
    let rest3 = rest2.drop_first();
    if events.len() > 1 {
        assert(events[1] == rest[0]);
    }
    if events.len() > 2 {
        assert(events[2] == rest2[0]);
        assert(events[2] is Aborted);
        let (state, _) = drain(tasks_left(events[2]));
        assert(server_run(state, rest3) is Some);
        if state == ServerState::Draining {
            lemma_draining_shape(rest3);
            assert forall|i: int| 2 < i < events.len() implies is_join(#[trigger] events[i]) by {
                assert(events[i] == rest3[i - 3]);
            }
            assert forall|i: int| 2 <= i < events.len() - 1 implies tasks_left(
                #[trigger] events[i],
            ) > 0 by {
                if i > 2 {
                    assert(events[i] == rest3[i - 3]);
                }
            }
            if events.len() > 3 {
                assert(events.last() == rest3.last());
            }
        } else {
            assert(rest3.len() == 0);
        }
    }
}

/// What a server can hear, and where it is then. It is accepting for as long as
/// all is calm; then a task panics, and that is the end; or a shutdown is asked
/// for, and it waits for the endpoint to be idle, for the tasks to be aborted,
/// and for their ends, until none is left. It hears nothing else.
pub proof fn every_run_has_this_shape(events: Seq<ServerEvent>)
    requires
        server_run(ServerState::Accepting, events) is Some,
    ensures
        ({
            let last = (server_run(ServerState::Accepting, events)->0).0;
            let calm = calm_at_first(events);
            let rest = events.skip(calm as int);
            &&& calm <= events.len()
            &&& all_calm(events.take(calm as int))
            &&& {
                ||| rest.len() == 0 && last == ServerState::Accepting
                ||| rest.len() == 1 && last == ServerState::Panicked
                    && (rest[0] matches ServerEvent::TaskJoined { panicked, .. } && panicked)
                ||| winds_down(rest, last)
            }
        }),
    decreases events.len(),
{
    let calm = calm_at_first(events);
    if events.len() == 0 {
    } else if is_calm(events[0]) {
        let tail = events.drop_first();
        assert(seq![events[0]] + tail =~= events);
        lemma_calm_then(seq![events[0]], tail);
        every_run_has_this_shape(tail);
        assert(events.skip(calm as int) =~= tail.skip(calm - 1));
        assert forall|i: int| 0 <= i < calm implies is_calm(
            #[trigger] events.take(calm as int)[i],
        ) by {
            if i > 0 {
                assert(events.take(calm as int)[i] == tail.take(calm - 1)[i - 1]);
            }
        }
    } else {
        assert(events.skip(0) =~= events);
        let (next, _) = ServerState::Accepting.next(events[0])->0;
        let tail = events.drop_first();
        if is_request(events[0]) {
            lemma_winds_down(events);
        } else {
            reveal_with_fuel(server_run, 2);
            assert(next == ServerState::Panicked);
            assert(server_run(next, tail) is Some);
            assert(tail.len() == 0);
        }
    }
}

} // verus!

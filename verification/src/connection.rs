//! The lifecycle of a connection: it is being opened, then established, then
//! closed for good.

use vstd::prelude::*;

verus! {

/// Where a connection stands.
#[derive(Debug, Clone, Copy, PartialEq, Eq)]
pub enum ConnectionState {
    /// The socket handshake is under way.
    Connecting,
    /// Packets are sent and received.
    Established,
    /// One direction has ended, and with it the connection.
    Closed,
}

/// What happened to a connection.
#[derive(Debug, Clone, Copy, PartialEq, Eq)]
pub enum ConnectionEvent {
    /// The socket handshake completed.
    HandshakeCompleted,
    /// The outbound direction ended, on an I/O error or the end of the stream.
    WriterStopped,
    /// The inbound direction ended, on an I/O error or the end of the stream.
    ReaderStopped,
}

/// Why a connection does not take a `send` or a `receive`.
#[derive(Debug, Clone, Copy, PartialEq, Eq)]
pub enum ConnectionError {
    /// The connection is not established yet.
    NotEstablished,
    /// The connection is closed.
    Closed,
}

impl ConnectionState {
    /// The state after `event`: the handshake's end establishes a connection
    /// that is being opened, the end of either direction closes it, and a
    /// closed connection stays closed.
    pub open spec fn spec_on_event(self, event: ConnectionEvent) -> ConnectionState {
        match (self, event) {
            (ConnectionState::Closed, _) => ConnectionState::Closed,
            (_, ConnectionEvent::WriterStopped) => ConnectionState::Closed,
            (_, ConnectionEvent::ReaderStopped) => ConnectionState::Closed,
            (_, ConnectionEvent::HandshakeCompleted) => ConnectionState::Established,
        }
    }

    /// The state after each of `events` in turn.
    pub open spec fn spec_after(self, events: Seq<ConnectionEvent>) -> ConnectionState
        decreases events.len(),
    {
        if events.len() == 0 {
            self
        } else {
            self.spec_after(events.drop_last()).spec_on_event(events.last())
        }
    }

    /// How far along its life a connection is.
    pub open spec fn spec_rank(self) -> nat {
        match self {
            ConnectionState::Connecting => 0,
            ConnectionState::Established => 1,
            ConnectionState::Closed => 2,
        }
    }

    /// A connection before its handshake.
    pub fn new() -> (state: Self)
        ensures
            state == ConnectionState::Connecting,
    {
        ConnectionState::Connecting
    }

    /// The state after `event`.
    pub fn on_event(self, event: ConnectionEvent) -> (next: Self)
        ensures
            next == self.spec_on_event(event),
    {
        match self {
            ConnectionState::Closed => ConnectionState::Closed,
            _ => match event {
                ConnectionEvent::HandshakeCompleted => ConnectionState::Established,
                ConnectionEvent::WriterStopped => ConnectionState::Closed,
                ConnectionEvent::ReaderStopped => ConnectionState::Closed,
            },
        }
    }

    /// Whether a `send` or a `receive` may go ahead: only on an established
    /// connection.
    pub fn check_open(self) -> (result: Result<(), ConnectionError>)
        ensures
            self == ConnectionState::Established ==> result is Ok,
            self == ConnectionState::Connecting ==> result == Err::<(), ConnectionError>(
                ConnectionError::NotEstablished,
            ),
            self == ConnectionState::Closed ==> result == Err::<(), ConnectionError>(
                ConnectionError::Closed,
            ),
    {
        match self {
            ConnectionState::Connecting => Err(ConnectionError::NotEstablished),
            ConnectionState::Established => Ok(()),
            ConnectionState::Closed => Err(ConnectionError::Closed),
        }
    }
}

/// A connection never goes back: whatever happens, it is at least as far
/// along as it was, and a closed connection stays closed.
pub proof fn lemma_connection_moves_forward(state: ConnectionState, events: Seq<ConnectionEvent>)
    ensures
        state.spec_rank() <= state.spec_after(events).spec_rank(),
        state == ConnectionState::Closed ==> state.spec_after(events) == ConnectionState::Closed,
    decreases events.len(),
{
    if events.len() > 0 {
        lemma_connection_moves_forward(state, events.drop_last());
    }
}

/// Once either direction has ended the connection is closed, whatever
/// happened before and whatever happens after.
pub proof fn lemma_stop_closes(
    state: ConnectionState,
    before: Seq<ConnectionEvent>,
    stop: ConnectionEvent,
    after: Seq<ConnectionEvent>,
)
    requires
        stop != ConnectionEvent::HandshakeCompleted,
    ensures
        state.spec_after(before.push(stop) + after) == ConnectionState::Closed,
    decreases after.len(),
{
    if after.len() > 0 {
        lemma_stop_closes(state, before, stop, after.drop_last());
        assert((before.push(stop) + after).drop_last() == before.push(stop) + after.drop_last());
    }
}

} // verus!

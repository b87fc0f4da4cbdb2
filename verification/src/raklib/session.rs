//! The states of a connection and the decisions on its way to closing.
use vstd::prelude::*;

verus! {

/// Where a connection stands.
#[derive(Debug, Clone, Copy, PartialEq, Eq, Structural)]
pub enum SessionState {
    /// The offline handshake is under way.
    ConnectingOffline,
    /// The offline handshake is done; the connection request is being exchanged.
    ConnectingOnline,
    /// The connection is established.
    Connected,
    /// A graceful close was asked for; waiting for what was sent to be acknowledged.
    DisconnectingGraceful,
    /// The close notification is sent; waiting for its acknowledgement.
    DisconnectingNotified,
    /// The connection is closed and can be removed.
    Disconnected,
}

impl SessionState {
    /// Whether packets may flow: during the online handshake and once connected.
    pub fn is_potentially_connected(&self) -> (r: bool)
        ensures
            r == (*self == SessionState::ConnectingOnline || *self == SessionState::Connected),
    {
        match self {
            SessionState::ConnectingOnline | SessionState::Connected => true,
            _ => false,
        }
    }

    /// Whether the handshake is complete.
    pub fn is_fully_connected(&self) -> (r: bool)
        ensures
            r == (*self == SessionState::Connected),
    {
        *self == SessionState::Connected
    }

    /// Whether the connection is closed.
    pub fn is_fully_disconnected(&self) -> (r: bool)
        ensures
            r == (*self == SessionState::Disconnected),
    {
        *self == SessionState::Disconnected
    }

    /// A graceful close is asked for: the state it leads to, and whether the close is to be
    /// reported now. A closed connection, or one whose notification is out, stays as it is;
    /// the close is reported once, when it is first asked for.
    pub open spec fn spec_initiate_disconnect(self) -> (SessionState, bool) {
        if self == SessionState::Disconnected || self == SessionState::DisconnectingNotified {
            (self, false)
        } else {
            (SessionState::DisconnectingGraceful, self != SessionState::DisconnectingGraceful)
        }
    }

    /// The connection is closed at once: the state it leads to, and whether the close is
    /// to be reported now, which it is unless it was already reported.
    pub open spec fn spec_force_disconnect(self) -> (SessionState, bool) {
        (
            SessionState::Disconnected,
            !(self == SessionState::Disconnected || self == SessionState::DisconnectingGraceful
                || self == SessionState::DisconnectingNotified),
        )
    }

    /// A graceful close is asked for; see `spec_initiate_disconnect`.
    #[verifier::when_used_as_spec(spec_initiate_disconnect)]
    pub fn initiate_disconnect(self) -> (r: (SessionState, bool))
        ensures
            r == self.spec_initiate_disconnect(),
    {
        match self {
            SessionState::Disconnected | SessionState::DisconnectingNotified => (self, false),
            SessionState::DisconnectingGraceful => (SessionState::DisconnectingGraceful, false),
            _ => (SessionState::DisconnectingGraceful, true),
        }
    }

    /// The connection is closed at once; see `spec_force_disconnect`.
    #[verifier::when_used_as_spec(spec_force_disconnect)]
    pub fn force_disconnect(self) -> (r: (SessionState, bool))
        ensures
            r == self.spec_force_disconnect(),
    {
        match self {
            SessionState::Disconnected => (self, false),
            SessionState::DisconnectingGraceful | SessionState::DisconnectingNotified => (
                SessionState::Disconnected,
                false,
            ),
            _ => (SessionState::Disconnected, true),
        }
    }
}

/// A close is reported at most once: after any close that reported it, no later close,
/// graceful or forced, reports it again, and a closed connection stays closed.
pub proof fn lemma_close_reported_once(s: SessionState, graceful_first: bool, graceful_then: bool)
    ensures
        ({
            let first = if graceful_first {
                s.spec_initiate_disconnect()
            } else {
                s.spec_force_disconnect()
            };
            let then = if graceful_then {
                first.0.spec_initiate_disconnect()
            } else {
                first.0.spec_force_disconnect()
            };
            &&& !then.1
            &&& first.0 == SessionState::Disconnected ==> then.0 == SessionState::Disconnected
        }),
{
}

} // verus!

use vstd::prelude::*;

use crate::protocol::{Command, CommandView, Error, Psync, ReplOpt};
use crate::reader::{element_of, ElementParser};

verus! {

/// How far a replica has come in its handshake with its primary.
#[derive(Debug, Clone, Copy, PartialEq, Eq, Structural)]
pub enum HandshakeState {
    Init,
    Pinged,
    PortAdvertised,
    CapaAdvertised,
    Synced,
}

/// The command that a replica listening on `port` sends in each state before the last.
pub open spec fn request_of(s: HandshakeState, port: usize) -> Option<CommandView> {
    match s {
        HandshakeState::Init => Some(CommandView::Ping(None)),
        HandshakeState::Pinged => Some(CommandView::ReplConf(ReplOpt::ListeningPort(port))),
        HandshakeState::PortAdvertised => Some(CommandView::ReplConf(ReplOpt::Capability)),
        HandshakeState::CapaAdvertised => Some(
            CommandView::Psync { replication_id: None, replication_offset: None },
        ),
        HandshakeState::Synced => None,
    }
}

/// The state that follows a state once the primary has answered.
pub open spec fn next_state(s: HandshakeState) -> HandshakeState {
    match s {
        HandshakeState::Init => HandshakeState::Pinged,
        HandshakeState::Pinged => HandshakeState::PortAdvertised,
        HandshakeState::PortAdvertised => HandshakeState::CapaAdvertised,
        _ => HandshakeState::Synced,
    }
}

impl HandshakeState {
    /// The command to send to the primary now; none once the handshake is over.
    pub fn request(&self, port: usize) -> (r: Option<Command>)
        ensures
            r matches Some(c) ==> request_of(*self, port) == Some(c@),
            r is None <==> request_of(*self, port) is None,
    {
        match self {
            HandshakeState::Init => Some(Command::Ping(None)),
            HandshakeState::Pinged => Some(Command::ReplConf(ReplOpt::ListeningPort(port))),
            HandshakeState::PortAdvertised => Some(Command::ReplConf(ReplOpt::Capability)),
            HandshakeState::CapaAdvertised => Some(
                Command::Psync(Psync { replication_id: None, replication_offset: None }),
            ),
            HandshakeState::Synced => None,
        }
    }

    /// The state after the primary's reply to this state's request: the reply must start
    /// with a whole frame, whose content is not looked at.
    pub fn advance(&self, reply: &[u8]) -> (r: Result<HandshakeState, Error>)
        requires
            *self != HandshakeState::Synced,
        ensures
            element_of(reply@) is Ok ==> r == Ok::<HandshakeState, Error>(next_state(*self)),
            element_of(reply@) matches Err(e) ==> r == Err::<HandshakeState, Error>(e),
    {
        let mut parser = ElementParser::new(reply);
        match parser.parse() {
            Ok(_) => Ok(
                match self {
                    HandshakeState::Init => HandshakeState::Pinged,
                    HandshakeState::Pinged => HandshakeState::PortAdvertised,
                    HandshakeState::PortAdvertised => HandshakeState::CapaAdvertised,
                    _ => HandshakeState::Synced,
                },
            ),
            Err(e) => Err(e),
        }
    }
}

} // verus!

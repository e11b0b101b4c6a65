//! The connection dispatcher: the server over a bound transport, and the
//! decisions its accept loop and per-connection units make.

use vstd::prelude::*;

verus! {

/// An SCGI server over a bound, listening transport `L`. The caller supplies
/// the transport and runs the accept loop; the library supplies the decoding
/// and the dispatch decisions ([`conn_step`], [`accept_step`]).
pub struct SCGIServer<L> {
    /// The bound listening endpoint connections are accepted from.
    pub listener: L,
}

impl<L> SCGIServer<L> {
    /// Wraps a bound listener as a server.
    pub fn new(listener: L) -> (r: SCGIServer<L>)
        ensures
            r.listener == listener,
    {
        SCGIServer { listener }
    }
}

/// The phases one connection's handling unit passes through, in order:
/// its header block is decoded, the handler runs, the stream is closed.
#[derive(Clone, Copy, Debug, PartialEq, Eq, Structural)]
pub enum ConnPhase {
    /// The header block is being read and decoded.
    Decoding,
    /// The handler is running on the decoded environment and the stream.
    Dispatching,
    /// The connection is finished and its stream released.
    Closed,
}

/// What happened in a connection's current phase.
#[derive(Clone, Copy, Debug, PartialEq, Eq, Structural)]
pub enum ConnEvent {
    /// The header block decoded to an environment.
    Decoded,
    /// The header block was malformed or the stream failed while decoding.
    DecodeFailed,
    /// The handler returned success.
    HandlerFinished,
    /// The handler returned an error or raised an unrecoverable fault.
    HandlerFailed,
}

/// What the connection's unit must do next.
#[derive(Clone, Copy, Debug, PartialEq, Eq, Structural)]
pub enum ConnAction {
    /// Invoke the caller's handler with the stream and the environment.
    RunHandler,
    /// Release the stream; nothing may be propagated to the accept loop or to
    /// any other connection.
    Close,
}

/// The events a phase can produce: decoding either succeeds or fails, the
/// handler either finishes or fails, and a closed connection produces nothing.
pub open spec fn conn_event_fits(phase: ConnPhase, event: ConnEvent) -> bool {
    match phase {
        ConnPhase::Decoding => event is Decoded || event is DecodeFailed,
        ConnPhase::Dispatching => event is HandlerFinished || event is HandlerFailed,
        ConnPhase::Closed => false,
    }
}

/// The transition table of one connection: only a successful decode leads to
/// the handler; every other event closes the connection.
pub open spec fn spec_conn_step(phase: ConnPhase, event: ConnEvent) -> (ConnPhase, ConnAction) {
    match event {
        ConnEvent::Decoded => (ConnPhase::Dispatching, ConnAction::RunHandler),
        _ => (ConnPhase::Closed, ConnAction::Close),
    }
}

/// Advances one connection by one event: the next phase and the action its
/// unit must perform. Failures never escape the connection — every path but a
/// successful decode ends in `Closed` with the stream released.
pub fn conn_step(phase: ConnPhase, event: ConnEvent) -> (r: (ConnPhase, ConnAction))
    requires
        conn_event_fits(phase, event),
    ensures
        r == spec_conn_step(phase, event),
        r.1 is RunHandler <==> event is Decoded,
        r.0 is Closed <==> r.1 is Close,
{
    match event {
        ConnEvent::Decoded => (ConnPhase::Dispatching, ConnAction::RunHandler),
        ConnEvent::DecodeFailed => (ConnPhase::Closed, ConnAction::Close),
        ConnEvent::HandlerFinished => (ConnPhase::Closed, ConnAction::Close),
        ConnEvent::HandlerFailed => (ConnPhase::Closed, ConnAction::Close),
    }
}

/// What one turn of the accept loop observed.
#[derive(Clone, Copy, Debug, PartialEq, Eq, Structural)]
pub enum AcceptEvent {
    /// A connection was accepted.
    Connection,
    /// A single accept call failed transiently; the listening endpoint still
    /// works.
    AcceptFailed,
    /// The listening endpoint itself is no longer usable.
    ListenerFailed,
}

/// What the accept loop does next.
#[derive(Clone, Copy, Debug, PartialEq, Eq, Structural)]
pub enum AcceptAction {
    /// Hand the connection to a fresh, independent handling unit and keep
    /// accepting.
    Dispatch,
    /// Keep accepting: one failed accept must not end the server.
    KeepAccepting,
    /// Leave the accept loop: without a listener the server cannot go on.
    Stop,
}

/// Decides one turn of the accept loop: dispatch each accepted connection,
/// survive per-connection accept failures, stop only when the listener itself
/// is dead.
pub fn accept_step(event: AcceptEvent) -> (r: AcceptAction)
    ensures
        r is Dispatch <==> event is Connection,
        r is KeepAccepting <==> event is AcceptFailed,
        r is Stop <==> event is ListenerFailed,
{
    match event {
        AcceptEvent::Connection => AcceptAction::Dispatch,
        AcceptEvent::AcceptFailed => AcceptAction::KeepAccepting,
        AcceptEvent::ListenerFailed => AcceptAction::Stop,
    }
}

} // verus!

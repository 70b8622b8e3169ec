//! The request/reply server state machine. For every inbound message
//! exactly one reply is sent: the very bytes received, as the
//! acknowledgment. A record that decodes is handed to the registered
//! handler first; a payload that does not decode is skipped but still
//! acknowledged, since the transport's job is acknowledgment, not
//! validation.
//!
//! The transport loop itself — binding the endpoint, receiving and
//! sending bytes — lives outside this crate and drives this state
//! machine: it calls `open` before accepting, hands every inbound
//! message to `handle_message` while `is_closed` is false, and stops
//! once it observes the closed flag.

use crate::codec::MessageData;
use vstd::prelude::*;
use vstd::slice::slice_to_vec;

verus! {

/// Why a server lifecycle operation failed.
#[derive(Clone, Copy, Debug, PartialEq, Eq, Structural)]
pub enum ServerError {
    /// The endpoint could not be bound: already in use or malformed.
    /// Raised by the transport loop around this state machine.
    BindError,
    /// The operation is not permitted in the server's current state,
    /// such as rebinding the endpoint while the server is running.
    InvalidState,
}

/// The per-message duty of the embedding application: receive each
/// decoded record. Implementations are supplied by the caller; their
/// failures are their own and must not stop the accept loop.
pub trait MessageHandler {
    fn on_message(&mut self, message: MessageData);
}

/// The observable state of a server: its endpoint and whether it is
/// closed.
pub struct ServerHandlerView {
    pub address: Seq<char>,
    pub closed: bool,
}

/// A request/reply server: an endpoint address, a closed flag, and the
/// caller-supplied handler. The address may change only while closed.
pub struct ServerHandler<H: MessageHandler> {
    address: String,
    closed: bool,
    handler: H,
}

impl<H: MessageHandler> View for ServerHandler<H> {
    type V = ServerHandlerView;

    closed spec fn view(&self) -> ServerHandlerView {
        ServerHandlerView { address: self.address@, closed: self.closed }
    }
}

impl<H: MessageHandler> ServerHandler<H> {
    /// A new server for the given endpoint; it starts closed.
    pub fn new(address: &str, handler: H) -> (r: Self)
        ensures
            r@.closed,
            r@.address == address@,
    {
        ServerHandler { address: address.to_owned(), closed: true, handler }
    }

    /// Marks the server as accepting; the transport loop around it may
    /// then hand messages in.
    pub fn open(&mut self)
        ensures
            !final(self)@.closed,
            final(self)@.address == old(self)@.address,
    {
        self.closed = false;
    }

    /// Signals the accept loop to stop: once the flag is observed, no
    /// further handler invocation is initiated. Idempotent.
    pub fn close(&mut self)
        ensures
            final(self)@.closed,
            final(self)@.address == old(self)@.address,
    {
        self.closed = true;
    }

    /// Whether the server is closed.
    pub fn is_closed(&self) -> (r: bool)
        ensures
            r == self@.closed,
    {
        self.closed
    }

    /// Replaces the handler; the endpoint and the closed flag keep
    /// their values.
    pub fn set_handler(&mut self, handler: H)
        ensures
            final(self)@ == old(self)@,
    {
        self.handler = handler;
    }

    /// The endpoint address.
    pub fn address(&self) -> (r: String)
        ensures
            r@ == self@.address,
    {
        self.address.clone()
    }

    /// Changes the endpoint. Permitted only while the server is
    /// closed: rebinding a running server is rejected with
    /// `InvalidState` and its address is kept.
    pub fn set_address(&mut self, address: &str) -> (r: Result<(), ServerError>)
        ensures
            final(self)@.closed == old(self)@.closed,
            r is Ok <==> old(self)@.closed,
            old(self)@.closed ==> final(self)@.address == address@,
            !old(self)@.closed ==> final(self)@.address == old(self)@.address && r->Err_0
                == ServerError::InvalidState,
    {
        if self.closed {
            self.address = address.to_owned();
            Ok(())
        } else {
            Err(ServerError::InvalidState)
        }
    }

    /// One request/reply exchange. The bytes are decoded; a record is
    /// handed to the handler, any other payload is skipped. Either
    /// way the reply is exactly the bytes received.
    pub fn handle_message(&mut self, data: &Vec<u8>) -> (reply: Vec<u8>)
        requires
            !old(self)@.closed,
        ensures
            reply@ == data@,
            final(self)@ == old(self)@,
    {
        match MessageData::from_bytes(data) {
            Ok(m) => self.handler.on_message(m),
            Err(_) => (),
        }
        slice_to_vec(data.as_slice())
    }

    /// A snapshot of liveness and endpoint.
    pub fn get_server_state(&self) -> (r: ServerState)
        ensures
            r.is_running == !self@.closed,
            r.address@ == self@.address,
    {
        ServerState { is_running: !self.closed, address: self.address.clone() }
    }
}

/// A point-in-time observation of a server: whether its accept loop is
/// live, and its endpoint.
#[derive(Debug)]
pub struct ServerState {
    pub is_running: bool,
    pub address: String,
}

} // verus!

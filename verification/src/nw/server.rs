//! The plain state of a TCP server: its settings, whether it runs, and the
//! decisions taken on it while it starts, serves and stops.

use crate::g::{Error, Result};
use vstd::prelude::*;

verus! {

/// A server's state as plain values.
pub struct ServerStateView {
    pub host: Seq<char>,
    pub max_connections: usize,
    pub timeout: u64,
    pub running: bool,
}

/// What starting a server in state `v` returns, and the state after it: a
/// server that runs already is refused with `ServerIsAlreadyRunning` and
/// left as it is; any other now runs.
pub open spec fn start_result(v: ServerStateView) -> (Result<()>, ServerStateView) {
    if v.running {
        (Err(Error::ServerIsAlreadyRunning), v)
    } else {
        (Ok(()), ServerStateView { running: true, ..v })
    }
}

/// A server's settings (listening address, maximum number of connections,
/// read timeout in seconds, 0 for none) and whether it runs.
pub struct ServerState {
    host: String,
    max_connections: usize,
    timeout: u64,
    running: bool,
}

impl View for ServerState {
    type V = ServerStateView;

    closed spec fn view(&self) -> ServerStateView {
        ServerStateView {
            host: self.host@,
            max_connections: self.max_connections,
            timeout: self.timeout,
            running: self.running,
        }
    }
}

impl ServerState {
    /// A server that does not run yet.
    pub fn new(host: &str, max_connections: usize, timeout: u64) -> (s: ServerState)
        ensures
            s@ == (ServerStateView { host: host@, max_connections, timeout, running: false }),
    {
        ServerState { host: host.to_owned(), max_connections, timeout, running: false }
    }

    /// The listening address.
    pub fn host(&self) -> (h: &str)
        ensures
            h@ == self@.host,
    {
        self.host.as_str()
    }

    /// The maximum number of connections.
    pub fn max_connections(&self) -> (n: usize)
        ensures
            n == self@.max_connections,
    {
        self.max_connections
    }

    /// The read timeout of the connections, in seconds (0 for none).
    pub fn timeout(&self) -> (t: u64)
        ensures
            t == self@.timeout,
    {
        self.timeout
    }

    /// Whether the server runs.
    pub fn running(&self) -> (b: bool)
        ensures
            b == self@.running,
    {
        self.running
    }

    /// Marks the server as running; see `start_result`.
    pub fn start(&mut self) -> (r: Result<()>)
        ensures
            (r, final(self)@) == start_result(old(self)@),
    {
        if self.running {
            return Err(Error::ServerIsAlreadyRunning);
        }
        self.running = true;
        Ok(())
    }

    /// Marks the server as stopped.
    pub fn stop(&mut self)
        ensures
            final(self)@ == (ServerStateView { running: false, ..old(self)@ }),
    {
        self.running = false;
    }

    /// The number of connections served, when `available` of the
    /// connection permits are free.
    pub fn current_connections(&self, available: usize) -> (n: usize)
        requires
            available <= self@.max_connections,
        ensures
            n == self@.max_connections - available,
    {
        self.max_connections - available
    }

    /// Whether a shutdown request is sent: only to a running server that
    /// has a listener for it.
    pub fn shutdown_needed(&self, listeners: usize) -> (b: bool)
        ensures
            b == (self@.running && listeners > 0),
    {
        self.running && listeners > 0
    }

    /// Whether the server is done: it no longer runs and every connection
    /// permit is free again.
    pub fn finished(&self, available: usize) -> (b: bool)
        ensures
            b == (!self@.running && available >= self@.max_connections),
    {
        !(self.max_connections > available || self.running)
    }
}

/// A server runs at most once at a time: starting a running server is
/// refused and changes nothing, and after it stops it can start again.
pub proof fn lemma_start_once(v: ServerStateView)
    requires
        !v.running,
    ensures
        start_result(v).0 is Ok,
        start_result(v).1.running,
        start_result(start_result(v).1) == (
            Err::<(), Error>(Error::ServerIsAlreadyRunning),
            start_result(v).1,
        ),
        start_result(ServerStateView { running: false, ..start_result(v).1 }).0 is Ok,
{
}

} // verus!

//! The server's decisions.
//!
//! The server answers one request per connection. What it answers, and
//! whether it still takes connections, is decided here; accepting
//! connections, reading and writing them, and waiting are left to the
//! program that runs the server.
//!
//! A server is created, listens once its accept loop runs, is stopping
//! from the moment it is told to stop, and is stopped when the accept loop
//! has noticed.

use vstd::prelude::*;
use crate::database::{document, postings, Database};
use crate::format::{decode_request, encode_response, RequestModel, ResponseModel};
use crate::message::{Request, Response};
use crate::text::lowercase;

verus! {

/// Where a server stands in its life.
#[derive(Debug, Clone, Copy, PartialEq, Eq, Structural)]
pub enum Phase {
    /// Not listening yet, and not told to stop.
    Created,
    /// The accept loop runs.
    Listening,
    /// Told to stop; the accept loop has not noticed yet.
    Stopping,
    /// Told to stop, and no accept loop runs.
    Stopped,
}

/// What the accept loop does with what `accept` gave it.
#[derive(Debug, Clone, Copy, PartialEq, Eq, Structural)]
pub enum Accept {
    /// Hand the connection to a worker.
    Submit,
    /// No connection was made: report it and go on accepting.
    Report,
    /// Leave the loop, without touching the connection.
    Exit,
}

/// How installing the interrupt handler went.
#[derive(Debug, Clone, Copy, PartialEq, Eq, Structural)]
pub enum HandlerSetup {
    /// The handler is in place.
    Installed,
    /// Another handler was in place already.
    AlreadyInstalled,
    /// The system refused.
    Failed,
}

/// The archive after the request `r`, and the response to it.
pub open spec fn respond(docs: Seq<Seq<char>>, r: RequestModel) -> (Seq<Seq<char>>, ResponseModel) {
    match r {
        RequestModel::Publish { doc } => (
            docs.push(doc),
            ResponseModel::PublishSuccess(docs.len() as usize),
        ),
        RequestModel::Search { word } => (
            docs,
            ResponseModel::SearchSuccess(postings(docs, lowercase(word))),
        ),
        RequestModel::Retrieve { id } => (
            docs,
            match document(docs, id) {
                Some(doc) => ResponseModel::RetrieveSuccess(doc),
                None => ResponseModel::Failure,
            },
        ),
    }
}

/// The archive after the bytes `input` came in on a connection, and the
/// response to them: a failure, and no change, when they hold no request.
pub open spec fn serve(docs: Seq<Seq<char>>, input: Seq<u8>) -> (Seq<Seq<char>>, ResponseModel) {
    match decode_request(input) {
        Some(r) => respond(docs, r),
        None => (docs, ResponseModel::Failure),
    }
}

/// A server, apart from how it is stored: the documents of its archive,
/// whether it was told to stop, and whether its accept loop runs.
pub struct ServerModel {
    pub docs: Seq<Seq<char>>,
    pub stopped: bool,
    pub accepting: bool,
}

impl ServerModel {
    /// A new server: an empty archive, not stopped, not listening.
    pub open spec fn created() -> ServerModel {
        ServerModel { docs: Seq::empty(), stopped: false, accepting: false }
    }

    /// Where the server stands in its life.
    pub open spec fn phase(self) -> Phase {
        if self.stopped {
            if self.accepting {
                Phase::Stopping
            } else {
                Phase::Stopped
            }
        } else {
            if self.accepting {
                Phase::Listening
            } else {
                Phase::Created
            }
        }
    }

    /// The server once its accept loop runs.
    pub open spec fn listening(self) -> ServerModel {
        ServerModel { docs: self.docs, stopped: self.stopped, accepting: true }
    }

    /// The server once it was told to stop.
    pub open spec fn stop(self) -> ServerModel {
        ServerModel { docs: self.docs, stopped: true, accepting: self.accepting }
    }

    /// The server after `accept` returned, with a connection or without,
    /// and what the accept loop does: a stopped server leaves the loop;
    /// otherwise a connection is handed to a worker and an error is
    /// reported.
    pub open spec fn on_connection(self, connected: bool) -> (ServerModel, Accept) {
        if self.stopped {
            (ServerModel { docs: self.docs, stopped: true, accepting: false }, Accept::Exit)
        } else if connected {
            (self, Accept::Submit)
        } else {
            (self, Accept::Report)
        }
    }

    /// The server after a worker served the bytes `input`, and the bytes
    /// that the worker sends back.
    pub open spec fn handle(self, input: Seq<u8>) -> (ServerModel, Seq<u8>) {
        (
            ServerModel {
                docs: serve(self.docs, input).0,
                stopped: self.stopped,
                accepting: self.accepting,
            },
            encode_response(serve(self.docs, input).1),
        )
    }
}

/// Telling a server to stop twice is telling it once.
pub proof fn lemma_stop_idempotent(m: ServerModel)
    ensures
        m.stop().stop() == m.stop(),
        m.stop().stopped,
{
}

/// A server that was told to stop stays so, whatever happens to it.
pub proof fn lemma_stop_is_final(m: ServerModel, connected: bool, input: Seq<u8>)
    requires
        m.stopped,
    ensures
        m.stop().stopped,
        m.listening().stopped,
        m.on_connection(connected).0.stopped,
        m.handle(input).0.stopped,
{
}

/// After a server was told to stop, its accept loop hands no connection
/// to a worker: at the next return of `accept` it leaves, and the server
/// is stopped.
pub proof fn lemma_no_submission_after_stop(m: ServerModel, connected: bool)
    ensures
        m.stop().on_connection(connected).1 == Accept::Exit,
        m.stop().on_connection(connected).0.phase() == Phase::Stopped,
        m.stop().on_connection(connected).0.docs == m.docs,
{
}

/// A connection that was handed to a worker is served as if the server
/// had not been told to stop: the same bytes go back, and the archive
/// changes in the same way.
pub proof fn lemma_served_after_stop(m: ServerModel, input: Seq<u8>)
    ensures
        m.stop().handle(input).1 == m.handle(input).1,
        m.stop().handle(input).0.docs == m.handle(input).0.docs,
{
}

/// The life of a server: created; listening once the accept loop runs;
/// stopping once told to stop; stopped once the accept loop has noticed.
pub proof fn lemma_life_cycle(connected: bool)
    ensures
        ServerModel::created().phase() == Phase::Created,
        ServerModel::created().listening().phase() == Phase::Listening,
        ServerModel::created().listening().stop().phase() == Phase::Stopping,
        ServerModel::created().listening().stop().on_connection(connected).0.phase()
            == Phase::Stopped,
{
}

/// What a server holds: the archive, and whether it was told to stop.
pub struct ServerState {
    /// The archive that the server serves.
    database: Database,
    /// Whether the server was told to stop.
    is_stopped: bool,
    /// Whether an accept loop runs.
    accepting: bool,
}

impl View for ServerState {
    type V = ServerModel;

    closed spec fn view(&self) -> ServerModel {
        ServerModel {
            docs: self.database@,
            stopped: self.is_stopped,
            accepting: self.accepting,
        }
    }
}

impl ServerState {
    /// The archive is well-formed.
    pub closed spec fn wf(&self) -> bool {
        self.database.wf()
    }

    /// The state of a new server: an empty archive, not stopped, not
    /// listening.
    pub fn new() -> (state: Self)
        ensures
            state.wf(),
            state@ == ServerModel::created(),
    {
        ServerState { database: Database::new(), is_stopped: false, accepting: false }
    }
}

/// Serves one request on the archive and gives the response: the
/// identifier of a published document, the identifiers found by a search,
/// the document retrieved, or a failure when no document has the
/// identifier.
pub fn process_message(state: &mut ServerState, request: Request) -> (response: Response)
    requires
        old(state).wf(),
    ensures
        final(state).wf(),
        final(state)@.stopped == old(state)@.stopped,
        final(state)@.accepting == old(state)@.accepting,
        (final(state)@.docs, response@) == respond(old(state)@.docs, request@),
{
    match request {
        Request::Publish { doc } => {
            let index = state.database.publish(doc);
            Response::PublishSuccess(index)
        },
        Request::Search { word } => {
            let indices = state.database.search(word.as_str());
            Response::SearchSuccess(indices)
        },
        Request::Retrieve { id } => {
            match state.database.retrieve(id) {
                Some(doc) => Response::RetrieveSuccess(doc),
                None => Response::Failure,
            }
        },
    }
}

/// A server: an archive behind the wire protocol, which can be told to
/// stop.
pub struct Server {
    state: ServerState,
}

impl View for Server {
    type V = ServerModel;

    closed spec fn view(&self) -> ServerModel {
        self.state@
    }
}

impl Server {
    /// The archive is well-formed.
    pub closed spec fn wf(&self) -> bool {
        self.state.wf()
    }

    /// Creates a server with an empty archive.
    pub fn new() -> (server: Self)
        ensures
            server.wf(),
            server@ == ServerModel::created(),
    {
        Server { state: ServerState::new() }
    }

    /// Where the server stands in its life.
    pub fn phase(&self) -> (phase: Phase)
        ensures
            phase == self@.phase(),
    {
        if self.state.is_stopped {
            if self.state.accepting {
                Phase::Stopping
            } else {
                Phase::Stopped
            }
        } else {
            if self.state.accepting {
                Phase::Listening
            } else {
                Phase::Created
            }
        }
    }

    /// Whether the server was told to stop. The thread that runs the
    /// server waits until this holds.
    pub fn is_stopped(&self) -> (stopped: bool)
        ensures
            stopped == self@.stopped,
    {
        self.state.is_stopped
    }

    /// Whether the server can run after an attempt to install the
    /// interrupt handler: it can unless the system refused. A handler that
    /// was in place already is good enough.
    pub fn can_run(setup: HandlerSetup) -> (ok: bool)
        ensures
            ok == (setup != HandlerSetup::Failed),
    {
        match setup {
            HandlerSetup::Installed => true,
            HandlerSetup::AlreadyInstalled => true,
            HandlerSetup::Failed => false,
        }
    }

    /// Notes that the listening socket is bound and the accept loop runs.
    pub fn listening(&mut self)
        requires
            old(self).wf(),
        ensures
            final(self).wf(),
            final(self)@ == old(self)@.listening(),
    {
        self.state.accepting = true;
    }

    /// Tells the server to stop. Telling it again changes nothing.
    pub fn stop(&mut self)
        requires
            old(self).wf(),
        ensures
            final(self).wf(),
            final(self)@ == old(self)@.stop(),
    {
        self.state.is_stopped = true;
    }

    /// Decides what the accept loop does when `accept` returns, with a
    /// connection (`connected`) or with an error.
    ///
    /// A server that was told to stop leaves the loop, whatever `accept`
    /// returned, and the loop is then over. Otherwise a connection is
    /// handed to a worker, and an error is reported.
    pub fn on_connection(&mut self, connected: bool) -> (action: Accept)
        requires
            old(self).wf(),
        ensures
            final(self).wf(),
            (final(self)@, action) == old(self)@.on_connection(connected),
    {
        if self.state.is_stopped {
            self.state.accepting = false;
            Accept::Exit
        } else if connected {
            Accept::Submit
        } else {
            Accept::Report
        }
    }

    /// Serves the bytes that came in on one connection and gives the
    /// bytes to send back: the response to the request that the bytes
    /// hold, or a failure when they hold none.
    ///
    /// A connection that was handed to a worker is served whether or not
    /// the server was told to stop in the meantime.
    pub fn handle(&mut self, input: &[u8]) -> (output: Vec<u8>)
        requires
            old(self).wf(),
        ensures
            final(self).wf(),
            (final(self)@, output@) == old(self)@.handle(input@),
    {
        let response = match Request::from_bytes(input) {
            Some(request) => process_message(&mut self.state, request),
            None => Response::Failure,
        };
        response.to_bytes()
    }
}

} // verus!

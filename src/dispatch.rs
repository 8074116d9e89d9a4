//! The per-connection state machine. Each event (a packet, the end of the
//! input, a transport failure, the end of a backend call) moves the session
//! to its next phase and yields the one action the connection must perform.
//!
//! Policy where the protocol leaves a choice: `Cancel` while idle is ignored;
//! `Data` while a query runs is accepted and dropped; any other packet that
//! the phase does not expect closes the connection with `UnexpectedPacket`.
use vstd::prelude::*;
use crate::errors::Error;
use crate::handshake::{negotiate, negotiated, ServerSettings, SettingsModel};
use crate::protocol::{ClientPacket, ClientPacketModel, HelloResponse, HelloResponseModel, QueryModel};
use crate::state::{initial_query_state, reset_of, CHContext, ContextModel, QueryState, QueryStateModel};

verus! {

#[derive(Debug, Clone, Copy, PartialEq, Eq, Structural)]
pub enum Phase {
    AwaitingHandshake,
    Idle,
    Executing,
    Closed,
}

/// A failure that a backend reports for a query; the session survives it.
#[derive(Debug, Clone, PartialEq, Eq)]
pub struct QueryError {
    pub code: u32,
    pub message: String,
    /// Sent to the client only where the server is configured to include
    /// stack traces.
    pub stack_trace: String,
}

pub struct QueryErrorModel {
    pub code: u32,
    pub message: Seq<char>,
    pub stack_trace: Seq<char>,
}

impl View for QueryError {
    type V = QueryErrorModel;

    open spec fn view(&self) -> QueryErrorModel {
        QueryErrorModel {
            code: self.code,
            message: self.message@,
            stack_trace: self.stack_trace@,
        }
    }
}

/// What happens to a session.
#[derive(Debug)]
pub enum Event {
    /// A packet arrived.
    Packet(ClientPacket),
    /// The client closed the stream cleanly.
    StreamEnd,
    /// Reading or decoding failed.
    Fault(Error),
    /// The backend call for the current query returned.
    QueryDone(Result<(), QueryError>),
}

pub enum EventModel {
    Packet(ClientPacketModel),
    StreamEnd,
    Fault(Error),
    QueryDone(Result<(), QueryErrorModel>),
}

impl View for Event {
    type V = EventModel;

    open spec fn view(&self) -> EventModel {
        match self {
            Event::Packet(p) => EventModel::Packet(p@),
            Event::StreamEnd => EventModel::StreamEnd,
            Event::Fault(e) => EventModel::Fault(*e),
            Event::QueryDone(r) => EventModel::QueryDone(
                match r {
                    Ok(()) => Ok(()),
                    Err(q) => Err(q@),
                },
            ),
        }
    }
}

/// What the connection must do next.
#[derive(Debug, Clone, PartialEq, Eq)]
pub enum Action {
    Nothing,
    SendHello(HelloResponse),
    SendPong,
    /// Call the backend for the query now in the context.
    Execute,
    SendEndOfStream,
    SendException(QueryError),
    /// The session is over and ended well.
    Finish,
    /// The session is over because of `error`; `report` says whether an
    /// exception packet is still worth writing.
    Abort { error: Error, report: bool },
}

pub enum ActionModel {
    Nothing,
    SendHello(HelloResponseModel),
    SendPong,
    Execute,
    SendEndOfStream,
    SendException(QueryErrorModel),
    Finish,
    Abort { error: Error, report: bool },
}

impl View for Action {
    type V = ActionModel;

    open spec fn view(&self) -> ActionModel {
        match self {
            Action::Nothing => ActionModel::Nothing,
            Action::SendHello(h) => ActionModel::SendHello(h@),
            Action::SendPong => ActionModel::SendPong,
            Action::Execute => ActionModel::Execute,
            Action::SendEndOfStream => ActionModel::SendEndOfStream,
            Action::SendException(q) => ActionModel::SendException(q@),
            Action::Finish => ActionModel::Finish,
            Action::Abort { error, report } => ActionModel::Abort { error: *error, report: *report },
        }
    }
}

/// The phase of a session and its context.
#[derive(Debug)]
pub struct Dispatcher {
    pub phase: Phase,
    pub ctx: CHContext,
}

pub struct SessionModel {
    pub phase: Phase,
    pub ctx: ContextModel,
}

impl View for Dispatcher {
    type V = SessionModel;

    open spec fn view(&self) -> SessionModel {
        SessionModel { phase: self.phase, ctx: self.ctx@ }
    }
}

/// The query state once query `q` is accepted.
pub open spec fn start_query(s: QueryStateModel, q: QueryModel) -> QueryStateModel {
    QueryStateModel {
        query_id: q.query_id,
        query: q.query,
        stage: q.stage,
        compression: q.compression,
        ..reset_of(s)
    }
}

pub open spec fn with_state(m: SessionModel, phase: Phase, st: QueryStateModel) -> SessionModel {
    SessionModel { phase, ctx: ContextModel { state: st, ..m.ctx } }
}

pub open spec fn unexpected(m: SessionModel, report: bool) -> (SessionModel, ActionModel) {
    (
        SessionModel { phase: Phase::Closed, ..m },
        ActionModel::Abort { error: Error::UnexpectedPacket, report },
    )
}

/// The transition function of a session.
pub open spec fn next(m: SessionModel, s: SettingsModel, e: EventModel) -> (
    SessionModel,
    ActionModel,
) {
    if m.phase == Phase::Closed {
        (m, ActionModel::Nothing)
    } else {
        match e {
            EventModel::StreamEnd => (
                with_state(
                    m,
                    Phase::Closed,
                    QueryStateModel { is_connection_closed: true, ..m.ctx.state },
                ),
                ActionModel::Finish,
            ),
            EventModel::Fault(err) => (
                SessionModel { phase: Phase::Closed, ..m },
                ActionModel::Abort { error: err, report: m.phase != Phase::AwaitingHandshake },
            ),
            EventModel::Packet(p) => if m.phase == Phase::AwaitingHandshake {
                match p {
                    ClientPacketModel::Hello(h) => (
                        SessionModel {
                            phase: Phase::Idle,
                            ctx: ContextModel { client_revision: h.revision, hello: Some(h), ..m.ctx },
                        },
                        ActionModel::SendHello(negotiated(h, s)),
                    ),
                    _ => unexpected(m, false),
                }
            } else if m.phase == Phase::Idle {
                match p {
                    ClientPacketModel::Ping => (m, ActionModel::SendPong),
                    ClientPacketModel::Cancel => (m, ActionModel::Nothing),
                    ClientPacketModel::Query(q) => (
                        with_state(m, Phase::Executing, start_query(m.ctx.state, q)),
                        ActionModel::Execute,
                    ),
                    _ => unexpected(m, true),
                }
            } else {
                match p {
                    ClientPacketModel::Ping => (m, ActionModel::SendPong),
                    ClientPacketModel::Cancel => (
                        with_state(
                            m,
                            Phase::Executing,
                            QueryStateModel { is_cancelled: true, ..m.ctx.state },
                        ),
                        ActionModel::Nothing,
                    ),
                    ClientPacketModel::Data { .. } => (m, ActionModel::Nothing),
                    _ => unexpected(m, true),
                }
            },
            EventModel::QueryDone(res) => if m.phase == Phase::Executing {
                (
                    with_state(
                        m,
                        Phase::Idle,
                        QueryStateModel { sent_all_data: true, ..m.ctx.state },
                    ),
                    match res {
                        Ok(()) => if m.ctx.state.sent_all_data {
                            ActionModel::Nothing
                        } else {
                            ActionModel::SendEndOfStream
                        },
                        Err(q) => ActionModel::SendException(q),
                    },
                )
            } else {
                (m, ActionModel::Nothing)
            },
        }
    }
}

impl Dispatcher {
    /// A session waiting for the client's hello.
    pub fn new() -> (r: Dispatcher)
        ensures
            r@ == (SessionModel {
                phase: Phase::AwaitingHandshake,
                ctx: ContextModel { state: initial_query_state(), client_revision: 0, hello: None },
            }),
    {
        Dispatcher { phase: Phase::AwaitingHandshake, ctx: CHContext::new(QueryState::default()) }
    }

    /// Applies `event` and returns the action it calls for.
    pub fn step(&mut self, settings: &ServerSettings, event: Event) -> (a: Action)
        ensures
            (final(self)@, a@) == next(old(self)@, settings@, event@),
    {
        if self.phase == Phase::Closed {
            return Action::Nothing;
        }
        match event {
            Event::StreamEnd => {
                self.phase = Phase::Closed;
                self.ctx.state.is_connection_closed = true;
                Action::Finish
            },
            Event::Fault(error) => {
                let report = self.phase != Phase::AwaitingHandshake;
                self.phase = Phase::Closed;
                Action::Abort { error, report }
            },
            Event::Packet(p) => {
                if self.phase == Phase::AwaitingHandshake {
                    match p {
                        ClientPacket::Hello(h) => {
                            let r = negotiate(&h, settings);
                            self.phase = Phase::Idle;
                            self.ctx.client_revision = h.revision;
                            self.ctx.hello = Some(h);
                            Action::SendHello(r)
                        },
                        _ => {
                            self.phase = Phase::Closed;
                            Action::Abort { error: Error::UnexpectedPacket, report: false }
                        },
                    }
                } else if self.phase == Phase::Idle {
                    match p {
                        ClientPacket::Ping => Action::SendPong,
                        ClientPacket::Cancel => Action::Nothing,
                        ClientPacket::Query(q) => {
                            self.ctx.state.reset();
                            self.ctx.state.query_id = q.query_id;
                            self.ctx.state.query = q.query;
                            self.ctx.state.stage = q.stage;
                            self.ctx.state.compression = q.compression;
                            self.phase = Phase::Executing;
                            Action::Execute
                        },
                        _ => {
                            self.phase = Phase::Closed;
                            Action::Abort { error: Error::UnexpectedPacket, report: true }
                        },
                    }
                } else {
                    match p {
                        ClientPacket::Ping => Action::SendPong,
                        ClientPacket::Cancel => {
                            self.ctx.state.is_cancelled = true;
                            Action::Nothing
                        },
                        ClientPacket::Data { .. } => Action::Nothing,
                        _ => {
                            self.phase = Phase::Closed;
                            Action::Abort { error: Error::UnexpectedPacket, report: true }
                        },
                    }
                }
            },
            Event::QueryDone(res) => {
                if self.phase == Phase::Executing {
                    let already = self.ctx.state.sent_all_data;
                    self.ctx.state.sent_all_data = true;
                    self.phase = Phase::Idle;
                    match res {
                        Ok(()) => if already {
                            Action::Nothing
                        } else {
                            Action::SendEndOfStream
                        },
                        Err(q) => Action::SendException(q),
                    }
                } else {
                    Action::Nothing
                }
            },
        }
    }
}

/// `Cancel` in the idle phase changes nothing and calls for nothing.
pub proof fn lemma_cancel_when_idle_is_ignored(m: SessionModel, s: SettingsModel)
    requires
        m.phase == Phase::Idle,
    ensures
        next(m, s, EventModel::Packet(ClientPacketModel::Cancel)) == (m, ActionModel::Nothing),
{
}

/// A second `Query` while one is executing is rejected and ends the session.
pub proof fn lemma_query_while_executing_is_rejected(m: SessionModel, s: SettingsModel, q: QueryModel)
    requires
        m.phase == Phase::Executing,
    ensures
        next(m, s, EventModel::Packet(ClientPacketModel::Query(q))).0.phase == Phase::Closed,
        next(m, s, EventModel::Packet(ClientPacketModel::Query(q))).1 == (ActionModel::Abort {
            error: Error::UnexpectedPacket,
            report: true,
        }),
{
}

/// Before the handshake every packet but `Hello` is rejected.
pub proof fn lemma_hello_comes_first(m: SessionModel, s: SettingsModel, p: ClientPacketModel)
    requires
        m.phase == Phase::AwaitingHandshake,
        !(p is Hello),
    ensures
        next(m, s, EventModel::Packet(p)).0.phase == Phase::Closed,
        next(m, s, EventModel::Packet(p)).1 == (ActionModel::Abort {
            error: Error::UnexpectedPacket,
            report: false,
        }),
{
}

/// `Ping` is answered with `Pong` and leaves the session as it was.
pub proof fn lemma_ping_keeps_state(m: SessionModel, s: SettingsModel)
    requires
        m.phase == Phase::Idle || m.phase == Phase::Executing,
    ensures
        next(m, s, EventModel::Packet(ClientPacketModel::Ping)) == (m, ActionModel::SendPong),
{
}

/// A `Query` in the idle phase resets the query state, takes the id, text,
/// stage and compression from the packet, and starts execution.
pub proof fn lemma_query_starts_execution(m: SessionModel, s: SettingsModel, q: QueryModel)
    requires
        m.phase == Phase::Idle,
    ensures
        next(m, s, EventModel::Packet(ClientPacketModel::Query(q))).0.phase == Phase::Executing,
        next(m, s, EventModel::Packet(ClientPacketModel::Query(q))).0.ctx.state == (QueryStateModel {
            query_id: q.query_id,
            query: q.query,
            stage: q.stage,
            compression: q.compression,
            ..reset_of(m.ctx.state)
        }),
        next(m, s, EventModel::Packet(ClientPacketModel::Query(q))).1 == ActionModel::Execute,
{
}

/// However a backend call ends, the session is idle again with all data
/// sent, and a following `Query` is accepted; a reported error becomes an
/// exception for the client.
pub proof fn lemma_query_done_returns_to_idle(
    m: SessionModel,
    s: SettingsModel,
    res: Result<(), QueryErrorModel>,
    q: QueryModel,
)
    requires
        m.phase == Phase::Executing,
    ensures
        next(m, s, EventModel::QueryDone(res)).0.phase == Phase::Idle,
        next(m, s, EventModel::QueryDone(res)).0.ctx.state.sent_all_data,
        res matches Err(e) ==> next(m, s, EventModel::QueryDone(res)).1
            == ActionModel::SendException(e),
        next(
            next(m, s, EventModel::QueryDone(res)).0,
            s,
            EventModel::Packet(ClientPacketModel::Query(q)),
        ).1 == ActionModel::Execute,
{
}

} // verus!

//! Per-connection state: the query in flight and the handshake outcome.
use vstd::prelude::*;
use crate::protocol::{HelloModel, HelloRequest, Progress};

verus! {

/// What the session knows about the query in flight.
#[derive(Clone, Debug)]
pub struct QueryState {
    pub query_id: String,
    pub stage: u64,
    pub compression: u64,
    pub query: String,
    pub is_cancelled: bool,
    pub is_connection_closed: bool,
    /// empty or not
    pub is_empty: bool,
    /// Data was sent.
    pub sent_all_data: bool,
}

pub struct QueryStateModel {
    pub query_id: Seq<char>,
    pub stage: u64,
    pub compression: u64,
    pub query: Seq<char>,
    pub is_cancelled: bool,
    pub is_connection_closed: bool,
    pub is_empty: bool,
    pub sent_all_data: bool,
}

impl View for QueryState {
    type V = QueryStateModel;

    open spec fn view(&self) -> QueryStateModel {
        QueryStateModel {
            query_id: self.query_id@,
            stage: self.stage,
            compression: self.compression,
            query: self.query@,
            is_cancelled: self.is_cancelled,
            is_connection_closed: self.is_connection_closed,
            is_empty: self.is_empty,
            sent_all_data: self.sent_all_data,
        }
    }
}

/// `s` with every field but the query id and the query text at its initial
/// value.
pub open spec fn reset_of(s: QueryStateModel) -> QueryStateModel {
    QueryStateModel {
        query_id: s.query_id,
        query: s.query,
        stage: 0,
        compression: 0,
        is_cancelled: false,
        is_connection_closed: false,
        is_empty: false,
        sent_all_data: false,
    }
}

/// The state of a connection that has seen no query.
pub open spec fn initial_query_state() -> QueryStateModel {
    QueryStateModel {
        query_id: Seq::empty(),
        query: Seq::empty(),
        stage: 0,
        compression: 0,
        is_cancelled: false,
        is_connection_closed: false,
        is_empty: false,
        sent_all_data: false,
    }
}

impl Default for QueryState {
    fn default() -> (r: QueryState)
        ensures
            r@ == initial_query_state(),
    {
        QueryState {
            query_id: String::new(),
            stage: 0,
            compression: 0,
            query: String::new(),
            is_cancelled: false,
            is_connection_closed: false,
            is_empty: false,
            sent_all_data: false,
        }
    }
}

impl QueryState {
    /// Clears everything but the query id and the query text, before a new
    /// query begins.
    pub fn reset(&mut self)
        ensures
            final(self)@ == reset_of(old(self)@),
    {
        self.stage = 0;
        self.compression = 0;
        self.is_cancelled = false;
        self.is_connection_closed = false;
        self.is_empty = false;
        self.sent_all_data = false;
    }
}

/// Resetting a second time changes nothing, and a reset state agrees with the
/// initial state everywhere but in the query id and the query text.
pub proof fn lemma_reset_idempotent(s: QueryStateModel)
    ensures
        reset_of(reset_of(s)) == reset_of(s),
        reset_of(s) == (QueryStateModel {
            query_id: s.query_id,
            query: s.query,
            ..initial_query_state()
        }),
{
}

/// The session context: the query state and the outcome of the handshake.
#[derive(Clone, Debug)]
pub struct CHContext {
    pub state: QueryState,
    pub client_revision: u64,
    pub hello: Option<HelloRequest>,
}

pub struct ContextModel {
    pub state: QueryStateModel,
    pub client_revision: u64,
    pub hello: Option<HelloModel>,
}

impl View for CHContext {
    type V = ContextModel;

    open spec fn view(&self) -> ContextModel {
        ContextModel {
            state: self.state@,
            client_revision: self.client_revision,
            hello: match self.hello {
                Some(h) => Some(h@),
                None => None,
            },
        }
    }
}

impl CHContext {
    /// A context before the handshake.
    pub fn new(state: QueryState) -> (r: CHContext)
        ensures
            r.state == state,
            r.client_revision == 0,
            r.hello.is_none(),
    {
        CHContext { state, client_revision: 0, hello: None }
    }
}

impl Progress {
    /// All counters zero.
    pub fn zero() -> (r: Progress)
        ensures
            r == (Progress { rows: 0, bytes: 0, total_rows: 0, written_rows: 0, written_bytes: 0 }),
    {
        Progress { rows: 0, bytes: 0, total_rows: 0, written_rows: 0, written_bytes: 0 }
    }

    /// Adds the counters of `other`, each capped at `u64::MAX`.
    pub fn accumulate(&mut self, other: &Progress)
        ensures
            final(self).rows == sat_add(old(self).rows, other.rows),
            final(self).bytes == sat_add(old(self).bytes, other.bytes),
            final(self).total_rows == sat_add(old(self).total_rows, other.total_rows),
            final(self).written_rows == sat_add(old(self).written_rows, other.written_rows),
            final(self).written_bytes == sat_add(old(self).written_bytes, other.written_bytes),
    {
        self.rows = self.rows.saturating_add(other.rows);
        self.bytes = self.bytes.saturating_add(other.bytes);
        self.total_rows = self.total_rows.saturating_add(other.total_rows);
        self.written_rows = self.written_rows.saturating_add(other.written_rows);
        self.written_bytes = self.written_bytes.saturating_add(other.written_bytes);
    }
}

/// The sum of `a` and `b`, or `u64::MAX` where it does not fit.
pub open spec fn sat_add(a: u64, b: u64) -> u64 {
    if a + b > u64::MAX {
        u64::MAX
    } else {
        (a + b) as u64
    }
}

} // verus!

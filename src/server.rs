//! A connection's engine: the session state machine together with the
//! settings it announces, fed with input bytes and writing response bytes.
use vstd::prelude::*;
use crate::binary::varint_bytes;
use crate::dispatch::{next, Action, ActionModel, Dispatcher, Event, EventModel, SessionModel};
use crate::errors::{error_code, error_message, Error};
use crate::handshake::ServerSettings;
use crate::protocol::{
    exception_bytes, hello_response_bytes, lemma_packet_prefix, read_packet, spec_read_packet,
    write_end_of_stream,
    write_exception, write_hello_response, write_pong, SERVER_END_OF_STREAM, SERVER_PONG,
};
use crate::state::initial_query_state;

verus! {

/// The name that exception packets carry.
pub open spec fn exception_name() -> Seq<char> {
    "DB::Exception"@
}

/// The bytes written for action `a` to a client of revision `rev`. A query
/// error carries its stack trace only when `with_stack_trace` is set; the
/// engine's own errors have none.
pub open spec fn response_bytes(a: ActionModel, rev: u64, with_stack_trace: bool) -> Seq<u8> {
    match a {
        ActionModel::SendHello(h) => hello_response_bytes(h, rev),
        ActionModel::SendPong => varint_bytes(SERVER_PONG as nat),
        ActionModel::SendEndOfStream => varint_bytes(SERVER_END_OF_STREAM as nat),
        ActionModel::SendException(q) => exception_bytes(
            q.code,
            exception_name(),
            q.message,
            if with_stack_trace {
                q.stack_trace
            } else {
                Seq::empty()
            },
        ),
        ActionModel::Abort { error, report } => if report {
            exception_bytes(error_code(error), exception_name(), error_message(error), Seq::empty())
        } else {
            Seq::empty()
        },
        _ => Seq::empty(),
    }
}

/// The event that the input `s` (from the current position on) gives, when
/// `eof` says whether more input may come. Input that ends inside a packet
/// asks for more (`None`) until no more can come, and is then malformed; any
/// other failure is reported at once.
pub open spec fn event_of(s: Seq<u8>, compressed: bool, eof: bool) -> Option<(EventModel, nat)> {
    if s.len() == 0 {
        if eof {
            Some((EventModel::StreamEnd, 0))
        } else {
            None
        }
    } else {
        match spec_read_packet(s, compressed) {
            Ok((p, k)) => Some((EventModel::Packet(p), k)),
            Err(e) => if e != Error::Incomplete {
                Some((EventModel::Fault(e), 0))
            } else if eof {
                Some((EventModel::Fault(Error::MalformedPacket), 0))
            } else {
                None
            },
        }
    }
}

pub struct ClickHouseServer {
    pub settings: ServerSettings,
    pub session: Dispatcher,
}

impl ClickHouseServer {
    /// A server for one connection, waiting for the client's hello.
    pub fn new(settings: ServerSettings) -> (r: ClickHouseServer)
        ensures
            r.settings == settings,
            r.session@ == (SessionModel {
                phase: crate::dispatch::Phase::AwaitingHandshake,
                ctx: crate::state::ContextModel {
                    state: initial_query_state(),
                    client_revision: 0,
                    hello: None,
                },
            }),
    {
        ClickHouseServer { settings, session: Dispatcher::new() }
    }

    /// The next event in `buf` from `pos`, and the position after it. A
    /// packet that the input ends inside asks for more input unless the input
    /// has ended; a malformed one is reported at once.
    #[verifier::spinoff_prover]
    #[verifier::rlimit(100)]
    pub fn next_event(&self, buf: &[u8], pos: usize, eof: bool) -> (r: Option<(Event, usize)>)
        requires
            pos <= buf@.len(),
        ensures
            match event_of(
                buf@.skip(pos as int),
                self.session.ctx.state.compression != 0,
                eof,
            ) {
                Some((e, k)) => r matches Some((ev, p)) && ev@ == e && p == pos + k,
                None => r is None,
            },
    {
        let compressed = self.session.ctx.state.compression != 0;
        match read_packet(buf, pos, compressed) {
            Ok(Some((p, end))) => Some((Event::Packet(p), end)),
            Ok(None) => if eof {
                Some((Event::StreamEnd, pos))
            } else {
                None
            },
            Err(e) => if e != Error::Incomplete {
                Some((Event::Fault(e), pos))
            } else if eof {
                Some((Event::Fault(Error::MalformedPacket), pos))
            } else {
                None
            },
        }
    }

    /// Applies `event` to the session and writes to `out` what the resulting
    /// action sends to the client. The other actions are the caller's to
    /// carry out: run the backend, or close the connection.
    #[verifier::spinoff_prover]
    #[verifier::rlimit(100)]
    pub fn handle(&mut self, event: Event, out: &mut Vec<u8>) -> (a: Action)
        ensures
            (final(self).session@, a@) == next(old(self).session@, old(self).settings@, event@),
            final(self).settings == old(self).settings,
            final(out)@ == old(out)@ + response_bytes(
                a@,
                final(self).session.ctx.client_revision,
                old(self).settings.with_stack_trace,
            ),
    {
        let a = self.session.step(&self.settings, event);
        let rev = self.session.ctx.client_revision;
        match &a {
            Action::SendHello(h) => write_hello_response(out, h, rev),
            Action::SendPong => write_pong(out),
            Action::SendEndOfStream => write_end_of_stream(out),
            Action::SendException(q) => {
                let trace: &str = if self.settings.with_stack_trace {
                    q.stack_trace.as_str()
                } else {
                    ""
                };
                write_exception(out, q.code, "DB::Exception", q.message.as_str(), trace)
            },
            Action::Abort { error, report } => {
                if *report {
                    write_exception(out, error.code(), "DB::Exception", error.message(), "");
                }
            },
            _ => {},
        }
        proof {
            reveal_strlit("");
        }
        assert(old(out)@ =~= old(out)@ + Seq::<u8>::empty());
        a
    }
}

/// Input that ends inside a packet asks for more while more may come, and is
/// a malformed packet once the input has ended; it never yields the packet.
pub proof fn lemma_cut_packet(s: Seq<u8>, compressed: bool, m: nat)
    requires
        spec_read_packet(s, compressed) is Ok,
        0 < m < spec_read_packet(s, compressed)->Ok_0.1,
        m <= s.len(),
    ensures
        event_of(s.take(m as int), compressed, false) is None,
        event_of(s.take(m as int), compressed, true) == Some(
            (EventModel::Fault(Error::MalformedPacket), 0nat),
        ),
{
    lemma_packet_prefix(s, compressed, m);
}

} // verus!

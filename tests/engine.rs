use clickhouse_srv::binary::{
    read_bytes, read_fixed, read_string, read_varint, write_bytes, write_fixed, write_string,
    write_varint, MAX_STRING_LEN,
};
use clickhouse_srv::block::{read_block, write_block, Block, Column, TypeTag, Value};
use clickhouse_srv::dispatch::{Action, Dispatcher, Event, Phase, QueryError};
use clickhouse_srv::errors::Error;
use clickhouse_srv::handshake::{negotiate, ServerSettings, ServerVersion};
use clickhouse_srv::session::declared_version;
use clickhouse_srv::protocol::{
    read_packet, write_data, write_exception, write_progress, ClientPacket, HelloRequest, Progress,
    QueryRequest, Setting,
};
use clickhouse_srv::{CHContext, ClickHouseServer, ClickHouseSession, QueryState};

#[test]
fn it_works() {
    assert_eq!(2 + 2, 4);
}

fn varint(v: u64) -> Vec<u8> {
    let mut b = Vec::new();
    write_varint(&mut b, v);
    b
}

#[test]
fn varint_boundaries() {
    assert_eq!(varint(0), vec![0]);
    assert_eq!(varint(127), vec![0x7f]);
    assert_eq!(varint(128), vec![0x80, 0x01]);
    assert_eq!(
        varint((1u64 << 63) - 1),
        vec![0xff, 0xff, 0xff, 0xff, 0xff, 0xff, 0xff, 0xff, 0x7f]
    );
    for v in [0u64, 127, 128, 300, (1u64 << 63) - 1, u64::MAX] {
        let b = varint(v);
        assert_eq!(read_varint(&b, 0), Ok((v, b.len())));
    }
}

#[test]
fn varint_truncated_is_incomplete() {
    for v in [128u64, 300, (1u64 << 63) - 1, u64::MAX] {
        let b = varint(v);
        for k in 0..b.len() {
            assert_eq!(read_varint(&b[..k], 0), Err(Error::Incomplete));
        }
    }
}

#[test]
fn varint_overflow_is_malformed() {
    let mut b = vec![0xff; 9];
    b.push(0x02);
    assert_eq!(read_varint(&b, 0), Err(Error::MalformedPacket));
    let eleven = vec![0x80; 11];
    assert_eq!(read_varint(&eleven, 0), Err(Error::MalformedPacket));
}

#[test]
fn varint_reads_at_offset() {
    let b = vec![9, 9, 0xac, 0x02, 7];
    assert_eq!(read_varint(&b, 2), Ok((300, 4)));
}

#[test]
fn string_round_trip() {
    let mut b = Vec::new();
    write_string(&mut b, "SELECT 1");
    assert_eq!(b[0], 8);
    assert_eq!(read_string(&b, 0), Ok(("SELECT 1".to_string(), 9)));
    let mut u = Vec::new();
    write_string(&mut u, "zürich");
    assert_eq!(u[0], 7);
    assert_eq!(read_string(&u, 0), Ok(("zürich".to_string(), 8)));
}

#[test]
fn string_truncated_is_incomplete() {
    let b = vec![10, b'a', b'b', b'c'];
    assert_eq!(read_bytes(&b, 0), Err(Error::Incomplete));
}

#[test]
fn string_over_limit_is_refused() {
    let mut b = Vec::new();
    write_varint(&mut b, MAX_STRING_LEN + 1);
    assert_eq!(read_bytes(&b, 0), Err(Error::ProtocolLimitExceeded));
}

#[test]
fn string_invalid_utf8_is_malformed() {
    let mut b = Vec::new();
    write_bytes(&mut b, &[0xff, 0xfe]);
    assert_eq!(read_string(&b, 0), Err(Error::MalformedPacket));
}

#[test]
fn fixed_width_little_endian() {
    let mut b = Vec::new();
    write_fixed(&mut b, 0x0102030405060708, 8);
    assert_eq!(b, vec![8, 7, 6, 5, 4, 3, 2, 1]);
    assert_eq!(read_fixed(&b, 0, 8), Ok((0x0102030405060708, 8)));
    assert_eq!(read_fixed(&b[..5], 0, 8), Err(Error::Incomplete));
}

fn sample_block() -> Block {
    Block {
        rows: 2,
        columns: vec![
            Column {
                name: "id".to_string(),
                tag: TypeTag::UInt64,
                values: vec![Value::UInt64(1), Value::UInt64(u64::MAX)],
            },
            Column {
                name: "flag".to_string(),
                tag: TypeTag::UInt8,
                values: vec![Value::UInt8(0), Value::UInt8(255)],
            },
            Column {
                name: "s".to_string(),
                tag: TypeTag::Str,
                values: vec![Value::Str(b"x".to_vec()), Value::Str(Vec::new())],
            },
        ],
    }
}

#[test]
fn block_round_trip() {
    let b = sample_block();
    let mut bytes = Vec::new();
    write_block(&mut bytes, &b);
    bytes.push(99);
    let (back, end) = read_block(&bytes, 0).unwrap();
    assert_eq!(back, b);
    assert_eq!(end, bytes.len() - 1);
}

#[test]
fn empty_block_is_two_zeros() {
    let b = Block { rows: 0, columns: Vec::new() };
    let mut bytes = Vec::new();
    write_block(&mut bytes, &b);
    assert_eq!(bytes, vec![0, 0]);
    assert_eq!(read_block(&bytes, 0), Ok((b, 2)));
}

#[test]
fn block_unknown_type_is_unsupported() {
    let mut bytes = Vec::new();
    write_varint(&mut bytes, 1);
    write_varint(&mut bytes, 1);
    write_string(&mut bytes, "d");
    write_string(&mut bytes, "Date");
    bytes.extend_from_slice(&[0, 0]);
    assert_eq!(read_block(&bytes, 0), Err(Error::UnsupportedType));
}

#[test]
fn block_layout_one_column() {
    let b = Block {
        rows: 1,
        columns: vec![Column {
            name: "1".to_string(),
            tag: TypeTag::UInt8,
            values: vec![Value::UInt8(1)],
        }],
    };
    let mut bytes = Vec::new();
    write_block(&mut bytes, &b);
    assert_eq!(bytes, vec![1, 1, 1, b'1', 5, b'U', b'I', b'n', b't', b'8', 1]);
}

fn settings(version: Option<ServerVersion>) -> ServerSettings {
    ServerSettings::new("clickhouse-server", "node-1", "UTC", version, false).unwrap()
}

fn hello(revision: u64) -> HelloRequest {
    HelloRequest {
        client_name: "client".to_string(),
        version_major: 21,
        version_minor: 8,
        revision,
        database: "default".to_string(),
        user: "default".to_string(),
        password: String::new(),
    }
}

fn hello_bytes(revision: u64) -> Vec<u8> {
    let mut b = Vec::new();
    write_varint(&mut b, 0);
    write_string(&mut b, "client");
    write_varint(&mut b, 21);
    write_varint(&mut b, 8);
    write_varint(&mut b, revision);
    write_string(&mut b, "default");
    write_string(&mut b, "default");
    write_string(&mut b, "");
    b
}

fn query_bytes(id: &str, text: &str) -> Vec<u8> {
    let mut b = Vec::new();
    write_varint(&mut b, 1);
    write_string(&mut b, id);
    write_string(&mut b, "");
    write_varint(&mut b, 2);
    write_varint(&mut b, 0);
    write_string(&mut b, text);
    b
}

#[test]
fn timezone_must_be_known() {
    assert!(ServerSettings::new("s", "d", "Europe/Berlin", None, false).is_ok());
    assert_eq!(
        ServerSettings::new("s", "d", "Mars/Olympus", None, false).err(),
        Some(Error::UnknownTimezone)
    );
    assert_eq!(
        ServerSettings::new("s", "d", "utc", None, false).err(),
        Some(Error::UnknownTimezone)
    );
}

#[test]
fn handshake_echoes_client_revision() {
    let r = negotiate(&hello(54428), &settings(None));
    assert_eq!(r.revision, 54428);
    assert_eq!(r.version_major, 21);
    assert_eq!(r.timezone, "UTC");
}

#[test]
fn handshake_reports_declared_revision() {
    let v = ServerVersion { major: 19, minor: 17, patch: 1, revision: 54405 };
    let r = negotiate(&hello(54428), &settings(Some(v)));
    assert_eq!(r.revision, 54405);
    assert_eq!((r.version_major, r.version_minor, r.version_patch), (19, 17, 1));
}

struct Defaults;
impl ClickHouseSession for Defaults {}

#[test]
fn session_defaults() {
    let s = Defaults;
    assert_eq!(s.dbms_name(), "clickhouse-server");
    assert_eq!(s.timezone(), "UTC");
    assert!(s.declares_version());
    assert!(!s.with_stack_trace());
    assert_eq!(s.server_display_name(), "clickhouse-server");
    assert_eq!((s.dbms_version_major(), s.dbms_version_minor()), (19, 17));
    assert_eq!((s.dbms_version_patch(), s.dbms_tcp_protocol_version()), (1, 54428));
    assert_eq!(s.get_progress(), Progress::zero());
    let st = clickhouse_srv::session::settings_of(&s).unwrap();
    assert_eq!(
        st.version.map(|v| (v.major, v.minor, v.patch, v.revision)),
        Some((19, 17, 1, 54428))
    );
    assert!(!st.with_stack_trace);
}

fn packet_event(srv: &ClickHouseServer, bytes: &[u8]) -> Event {
    let (ev, end) = srv.next_event(bytes, 0, false).unwrap();
    assert_eq!(end, bytes.len());
    ev
}

fn ready_server() -> ClickHouseServer {
    let mut srv = ClickHouseServer::new(settings(None));
    let mut out = Vec::new();
    let ev = packet_event(&srv, &hello_bytes(54428));
    let a = srv.handle(ev, &mut out);
    assert!(matches!(a, Action::SendHello(_)));
    srv
}

#[test]
fn scenario_hello_without_declared_version() {
    let mut srv = ClickHouseServer::new(settings(None));
    let mut out = Vec::new();
    let ev = packet_event(&srv, &hello_bytes(54428));
    match srv.handle(ev, &mut out) {
        Action::SendHello(h) => assert_eq!(h.revision, 54428),
        other => panic!("unexpected action {:?}", other),
    }
    assert_eq!(srv.session.phase, Phase::Idle);
    assert_eq!(srv.session.ctx.client_revision, 54428);
    let mut expected = Vec::new();
    write_varint(&mut expected, 0);
    write_string(&mut expected, "clickhouse-server");
    write_varint(&mut expected, 21);
    write_varint(&mut expected, 8);
    write_varint(&mut expected, 54428);
    write_string(&mut expected, "UTC");
    write_string(&mut expected, "node-1");
    write_varint(&mut expected, 0);
    assert_eq!(out, expected);
}

#[test]
fn scenario_query_streams_data_then_end_of_stream() {
    let mut srv = ready_server();
    let mut out = Vec::new();
    let ev = packet_event(&srv, &query_bytes("q1", "SELECT 1"));
    assert_eq!(srv.handle(ev, &mut out), Action::Execute);
    assert_eq!(srv.session.ctx.state.query_id, "q1");
    assert_eq!(srv.session.ctx.state.query, "SELECT 1");
    let block = Block {
        rows: 1,
        columns: vec![Column {
            name: "1".to_string(),
            tag: TypeTag::UInt8,
            values: vec![Value::UInt8(1)],
        }],
    };
    write_data(&mut out, &block);
    let a = srv.handle(Event::QueryDone(Ok(())), &mut out);
    assert_eq!(a, Action::SendEndOfStream);
    let mut expected = vec![1, 0];
    write_block(&mut expected, &block);
    expected.push(5);
    assert_eq!(out, expected);
    assert_eq!(srv.session.phase, Phase::Idle);
    assert!(srv.session.ctx.state.sent_all_data);
}

#[test]
fn scenario_cancel_mid_execution() {
    let mut srv = ready_server();
    let mut out = Vec::new();
    let ev = packet_event(&srv, &query_bytes("q1", "SELECT sleep(10)"));
    assert_eq!(srv.handle(ev, &mut out), Action::Execute);
    let ev = packet_event(&srv, &[3]);
    assert_eq!(srv.handle(ev, &mut out), Action::Nothing);
    assert!(srv.session.ctx.state.is_cancelled);
    assert_eq!(srv.session.phase, Phase::Executing);
    assert_eq!(srv.handle(Event::QueryDone(Ok(())), &mut out), Action::SendEndOfStream);
    assert_eq!(srv.session.phase, Phase::Idle);
    let ev = packet_event(&srv, &query_bytes("q2", "SELECT 2"));
    assert_eq!(srv.handle(ev, &mut out), Action::Execute);
    assert!(!srv.session.ctx.state.is_cancelled);
    assert_eq!(srv.session.ctx.state.query_id, "q2");
}

#[test]
fn scenario_malformed_packet_closes() {
    let mut srv = ready_server();
    let bytes = vec![1, 10, b'a', b'b', b'c'];
    assert!(srv.next_event(&bytes, 0, false).is_none());
    let (ev, _) = srv.next_event(&bytes, 0, true).unwrap();
    let mut out = Vec::new();
    let a = srv.handle(ev, &mut out);
    assert_eq!(a, Action::Abort { error: Error::MalformedPacket, report: true });
    assert_eq!(srv.session.phase, Phase::Closed);
    let mut expected = Vec::new();
    write_exception(&mut expected, 33, "DB::Exception", "malformed packet", "");
    assert_eq!(out, expected);
}

#[test]
fn scenario_backend_error_keeps_connection() {
    let mut srv = ready_server();
    let mut out = Vec::new();
    let ev = packet_event(&srv, &query_bytes("q1", "SELEC 1"));
    assert_eq!(srv.handle(ev, &mut out), Action::Execute);
    let err = QueryError {
        code: 42,
        message: "syntax error".to_string(),
        stack_trace: "at parser".to_string(),
    };
    let a = srv.handle(Event::QueryDone(Err(err.clone())), &mut out);
    assert_eq!(a, Action::SendException(err));
    let mut expected = vec![2, 42, 0, 0, 0];
    write_string(&mut expected, "DB::Exception");
    write_string(&mut expected, "syntax error");
    write_string(&mut expected, "");
    expected.push(0);
    assert_eq!(out, expected);
    assert_eq!(srv.session.phase, Phase::Idle);
    let ev = packet_event(&srv, &query_bytes("q2", "SELECT 1"));
    assert_eq!(srv.handle(ev, &mut out), Action::Execute);
}

#[test]
fn cancel_when_idle_is_ignored() {
    let mut srv = ready_server();
    let mut out = Vec::new();
    assert_eq!(srv.handle(Event::Packet(ClientPacket::Cancel), &mut out), Action::Nothing);
    assert_eq!(srv.session.phase, Phase::Idle);
    assert!(out.is_empty());
}

#[test]
fn query_while_executing_is_rejected() {
    let mut srv = ready_server();
    let mut out = Vec::new();
    let q = QueryRequest {
        query_id: "a".to_string(),
        settings: Vec::new(),
        stage: 2,
        compression: 0,
        query: "SELECT 1".to_string(),
    };
    assert_eq!(srv.handle(Event::Packet(ClientPacket::Query(q.clone())), &mut out), Action::Execute);
    let a = srv.handle(Event::Packet(ClientPacket::Query(q)), &mut out);
    assert_eq!(a, Action::Abort { error: Error::UnexpectedPacket, report: true });
    assert_eq!(srv.session.phase, Phase::Closed);
}

#[test]
fn packet_before_hello_is_unexpected() {
    let mut d = Dispatcher::new();
    let a = d.step(&settings(None), Event::Packet(ClientPacket::Ping));
    assert_eq!(a, Action::Abort { error: Error::UnexpectedPacket, report: false });
    assert_eq!(d.phase, Phase::Closed);
}

#[test]
fn ping_is_answered_with_pong() {
    let mut srv = ready_server();
    let mut out = Vec::new();
    let ev = packet_event(&srv, &[4]);
    assert_eq!(srv.handle(ev, &mut out), Action::SendPong);
    assert_eq!(out, vec![4]);
}

#[test]
fn clean_end_of_stream_finishes() {
    let mut srv = ready_server();
    let (ev, _) = srv.next_event(&[], 0, true).unwrap();
    let mut out = Vec::new();
    assert_eq!(srv.handle(ev, &mut out), Action::Finish);
    assert_eq!(srv.session.phase, Phase::Closed);
    assert!(srv.session.ctx.state.is_connection_closed);
}

#[test]
fn unknown_packet_tag_is_malformed() {
    assert_eq!(read_packet(&[9], 0, false).err(), Some(Error::MalformedPacket));
    assert_eq!(read_packet(&[], 0, false), Ok(None));
}

#[test]
fn compressed_data_is_unsupported() {
    let mut b = vec![2];
    write_string(&mut b, "");
    b.extend_from_slice(&[0, 0]);
    assert_eq!(read_packet(&b, 0, true).err(), Some(Error::UnsupportedRevision));
    assert!(matches!(read_packet(&b, 0, false), Ok(Some((ClientPacket::Data { .. }, 4)))));
}

#[test]
fn reset_clears_all_but_id_and_text() {
    let mut s = QueryState::default();
    s.query_id = "q".to_string();
    s.query = "SELECT 1".to_string();
    s.stage = 2;
    s.compression = 1;
    s.is_cancelled = true;
    s.is_connection_closed = true;
    s.is_empty = true;
    s.sent_all_data = true;
    s.reset();
    assert_eq!(s.query_id, "q");
    assert_eq!(s.query, "SELECT 1");
    assert_eq!((s.stage, s.compression), (0, 0));
    assert!(!s.is_cancelled && !s.is_connection_closed && !s.is_empty && !s.sent_all_data);
    let ctx = CHContext::new(s);
    assert_eq!(ctx.client_revision, 0);
    assert!(ctx.hello.is_none());
}

#[test]
fn progress_accumulates_and_saturates() {
    let mut p = Progress::zero();
    let d = Progress { rows: 3, bytes: 10, total_rows: 5, written_rows: 0, written_bytes: 1 };
    p.accumulate(&d);
    p.accumulate(&d);
    assert_eq!(p.rows, 6);
    assert_eq!(p.bytes, 20);
    let big = Progress { rows: u64::MAX, ..d };
    p.accumulate(&big);
    assert_eq!(p.rows, u64::MAX);
    let mut out = Vec::new();
    write_progress(&mut out, &d, 54428);
    assert_eq!(out, vec![3, 3, 10, 5, 0, 1]);
    let mut old = Vec::new();
    write_progress(&mut old, &d, 54000);
    assert_eq!(old, vec![3, 3, 10, 5]);
}

#[test]
fn error_codes() {
    assert_eq!(Error::UnexpectedPacket.code(), 101);
    assert_eq!(Error::MalformedPacket.message(), "malformed packet");
}

#[test]
fn query_packet_with_settings() {
    let mut b = Vec::new();
    write_varint(&mut b, 1);
    write_string(&mut b, "q7");
    write_string(&mut b, "max_threads");
    write_string(&mut b, "4");
    write_string(&mut b, "");
    write_varint(&mut b, 2);
    write_varint(&mut b, 0);
    write_string(&mut b, "SELECT 1");
    let expected = QueryRequest {
        query_id: "q7".to_string(),
        settings: vec![Setting { name: "max_threads".to_string(), value: "4".to_string() }],
        stage: 2,
        compression: 0,
        query: "SELECT 1".to_string(),
    };
    assert_eq!(read_packet(&b, 0, false), Ok(Some((ClientPacket::Query(expected), b.len()))));
}

#[test]
fn query_settings_without_end_is_incomplete() {
    let mut b = Vec::new();
    write_varint(&mut b, 1);
    write_string(&mut b, "q7");
    write_string(&mut b, "max_threads");
    write_string(&mut b, "4");
    assert_eq!(read_packet(&b, 0, false).err(), Some(Error::Incomplete));
}

#[test]
fn malformed_packet_is_reported_without_waiting() {
    let srv = ready_server();
    match srv.next_event(&[9], 0, false) {
        Some((Event::Fault(e), _)) => assert_eq!(e, Error::MalformedPacket),
        _ => panic!("expected a fault"),
    }
    let mut long = vec![1];
    long.extend_from_slice(&[0x80; 10]);
    match srv.next_event(&long, 0, false) {
        Some((Event::Fault(e), _)) => assert_eq!(e, Error::MalformedPacket),
        _ => panic!("expected a fault"),
    }
    let mut bad_utf8 = vec![1];
    write_bytes(&mut bad_utf8, &[0xff]);
    match srv.next_event(&bad_utf8, 0, false) {
        Some((Event::Fault(e), _)) => assert_eq!(e, Error::MalformedPacket),
        _ => panic!("expected a fault"),
    }
}

#[test]
fn partial_packet_waits_then_fails_at_end() {
    let srv = ready_server();
    let b = query_bytes("q1", "SELECT 1");
    assert!(srv.next_event(&b[..b.len() - 2], 0, false).is_none());
    match srv.next_event(&b[..b.len() - 2], 0, true) {
        Some((Event::Fault(e), _)) => assert_eq!(e, Error::MalformedPacket),
        _ => panic!("expected a fault"),
    }
}

#[test]
fn stack_trace_is_sent_only_when_configured() {
    let with = ServerSettings::new("s", "d", "UTC", None, true).unwrap();
    let mut srv = ClickHouseServer::new(with);
    let mut out = Vec::new();
    let ev = packet_event(&srv, &hello_bytes(54428));
    srv.handle(ev, &mut out);
    let ev = packet_event(&srv, &query_bytes("q1", "SELEC 1"));
    srv.handle(ev, &mut out);
    out.clear();
    let err = QueryError {
        code: 42,
        message: "syntax error".to_string(),
        stack_trace: "at parser".to_string(),
    };
    srv.handle(Event::QueryDone(Err(err)), &mut out);
    let mut expected = Vec::new();
    write_exception(&mut expected, 42, "DB::Exception", "syntax error", "at parser");
    assert_eq!(out, expected);
}

#[test]
fn declared_version_or_echo() {
    assert_eq!(
        declared_version(true, 19, 17, 1, 54428),
        Some(ServerVersion { major: 19, minor: 17, patch: 1, revision: 54428 })
    );
    assert_eq!(declared_version(false, 19, 17, 1, 54428), None);
}

#[test]
fn every_cut_of_a_packet_waits_then_is_malformed() {
    let srv = ready_server();
    let mut data = vec![2];
    write_string(&mut data, "");
    write_block(&mut data, &sample_block());
    for whole in [hello_bytes(54428), query_bytes("q1", "SELECT 1"), data] {
        for k in 1..whole.len() {
            let cut = &whole[..k];
            assert!(srv.next_event(cut, 0, false).is_none());
            match srv.next_event(cut, 0, true) {
                Some((Event::Fault(e), _)) => assert_eq!(e, Error::MalformedPacket),
                _ => panic!("expected a fault"),
            }
        }
        assert!(matches!(srv.next_event(&whole, 0, false), Some((Event::Packet(_), _))));
    }
}

#[test]
fn too_many_settings_are_refused() {
    let mut b = Vec::new();
    write_varint(&mut b, 1);
    write_string(&mut b, "q");
    for _ in 0..4097 {
        write_string(&mut b, "k");
        write_string(&mut b, "v");
    }
    write_string(&mut b, "");
    write_varint(&mut b, 2);
    write_varint(&mut b, 0);
    write_string(&mut b, "SELECT 1");
    assert_eq!(read_packet(&b, 0, false).err(), Some(Error::ProtocolLimitExceeded));
}

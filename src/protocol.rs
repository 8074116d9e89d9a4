//! Packet layouts. A packet is a varint tag followed by its fields. Client
//! packets are read into typed values; server packets are written from them.
use vstd::prelude::*;
use crate::binary::{
    bytes_field, decoded, le_bytes, spec_read_string, spec_read_varint,
    string_field, varint_bytes, read_string, read_varint, write_fixed, write_string,
    write_varint, lemma_string_round_trip, lemma_varint_round_trip, MAX_STRING_LEN, cut,
    lemma_take_skip, lemma_string_prefix, lemma_varint_prefix,
};
use vstd::utf8::encode_utf8;
use crate::block::{
    block_bytes, lemma_block_prefix, read_block, spec_read_block, write_block, Block, BlockModel,
};
use crate::errors::Error;

verus! {

pub const CLIENT_HELLO: u64 = 0;
pub const CLIENT_QUERY: u64 = 1;
pub const CLIENT_DATA: u64 = 2;
pub const CLIENT_CANCEL: u64 = 3;
pub const CLIENT_PING: u64 = 4;

pub const SERVER_HELLO: u64 = 0;
pub const SERVER_DATA: u64 = 1;
pub const SERVER_EXCEPTION: u64 = 2;
pub const SERVER_PROGRESS: u64 = 3;
pub const SERVER_PONG: u64 = 4;
pub const SERVER_END_OF_STREAM: u64 = 5;

/// Most settings that one query may carry.
pub const MAX_SETTINGS: u64 = 4096;

/// First client revision that receives the server's timezone in its hello.
pub const REVISION_WITH_TIMEZONE: u64 = 54058;
/// First client revision that receives the server's display name.
pub const REVISION_WITH_DISPLAY_NAME: u64 = 54372;
/// First client revision that receives the server's patch version.
pub const REVISION_WITH_PATCH: u64 = 54401;
/// First client revision that receives the written counters of a progress.
pub const REVISION_WITH_WRITE_PROGRESS: u64 = 54420;

/// The client's opening packet.
#[derive(Debug, Clone, PartialEq, Eq)]
pub struct HelloRequest {
    pub client_name: String,
    pub version_major: u64,
    pub version_minor: u64,
    pub revision: u64,
    pub database: String,
    pub user: String,
    pub password: String,
}

pub struct HelloModel {
    pub client_name: Seq<char>,
    pub version_major: u64,
    pub version_minor: u64,
    pub revision: u64,
    pub database: Seq<char>,
    pub user: Seq<char>,
    pub password: Seq<char>,
}

impl View for HelloRequest {
    type V = HelloModel;

    open spec fn view(&self) -> HelloModel {
        HelloModel {
            client_name: self.client_name@,
            version_major: self.version_major,
            version_minor: self.version_minor,
            revision: self.revision,
            database: self.database@,
            user: self.user@,
            password: self.password@,
        }
    }
}

/// One query setting, as a name and a textual value.
#[derive(Debug, Clone, PartialEq, Eq)]
pub struct Setting {
    pub name: String,
    pub value: String,
}

pub struct SettingModel {
    pub name: Seq<char>,
    pub value: Seq<char>,
}

impl View for Setting {
    type V = SettingModel;

    open spec fn view(&self) -> SettingModel {
        SettingModel { name: self.name@, value: self.value@ }
    }
}

pub open spec fn settings_view(s: Seq<Setting>) -> Seq<SettingModel> {
    s.map_values(|x: Setting| x@)
}

/// A query to run.
#[derive(Debug, Clone, PartialEq, Eq)]
pub struct QueryRequest {
    pub query_id: String,
    pub settings: Vec<Setting>,
    pub stage: u64,
    pub compression: u64,
    pub query: String,
}

pub struct QueryModel {
    pub query_id: Seq<char>,
    pub settings: Seq<SettingModel>,
    pub stage: u64,
    pub compression: u64,
    pub query: Seq<char>,
}

impl View for QueryRequest {
    type V = QueryModel;

    open spec fn view(&self) -> QueryModel {
        QueryModel {
            query_id: self.query_id@,
            settings: settings_view(self.settings@),
            stage: self.stage,
            compression: self.compression,
            query: self.query@,
        }
    }
}

/// The packets that a client sends.
#[derive(Debug, Clone, PartialEq, Eq)]
pub enum ClientPacket {
    Hello(HelloRequest),
    Query(QueryRequest),
    Data { table: String, block: Block },
    Cancel,
    Ping,
}

pub enum ClientPacketModel {
    Hello(HelloModel),
    Query(QueryModel),
    Data { table: Seq<char>, block: BlockModel },
    Cancel,
    Ping,
}

impl View for ClientPacket {
    type V = ClientPacketModel;

    open spec fn view(&self) -> ClientPacketModel {
        match self {
            ClientPacket::Hello(h) => ClientPacketModel::Hello(h@),
            ClientPacket::Query(q) => ClientPacketModel::Query(q@),
            ClientPacket::Data { table, block } => ClientPacketModel::Data {
                table: table@,
                block: block@,
            },
            ClientPacket::Cancel => ClientPacketModel::Cancel,
            ClientPacket::Ping => ClientPacketModel::Ping,
        }
    }
}

pub open spec fn spec_read_hello(s: Seq<u8>) -> Result<(HelloModel, nat), Error> {
    match spec_read_string(s) {
        Err(e) => Err(e),
        Ok((client_name, k1)) => match spec_read_varint(s.skip(k1 as int)) {
            Err(e) => Err(e),
            Ok((version_major, k2)) => match spec_read_varint(s.skip((k1 + k2) as int)) {
                Err(e) => Err(e),
                Ok((version_minor, k3)) => match spec_read_varint(s.skip((k1 + k2 + k3) as int)) {
                    Err(e) => Err(e),
                    Ok((revision, k4)) => match spec_read_string(s.skip((k1 + k2 + k3 + k4) as int)) {
                        Err(e) => Err(e),
                        Ok((database, k5)) => match spec_read_string(
                            s.skip((k1 + k2 + k3 + k4 + k5) as int),
                        ) {
                            Err(e) => Err(e),
                            Ok((user, k6)) => match spec_read_string(
                                s.skip((k1 + k2 + k3 + k4 + k5 + k6) as int),
                            ) {
                                Err(e) => Err(e),
                                Ok((password, k7)) => Ok(
                                    (
                                        HelloModel {
                                            client_name,
                                            version_major,
                                            version_minor,
                                            revision,
                                            database,
                                            user,
                                            password,
                                        },
                                        k1 + k2 + k3 + k4 + k5 + k6 + k7,
                                    ),
                                ),
                            },
                        },
                    },
                },
            },
        },
    }
}

/// The settings list: name and value pairs, ended by an empty name, with at
/// most `fuel` pairs.
pub open spec fn spec_read_settings(s: Seq<u8>, fuel: nat) -> Result<
    (Seq<SettingModel>, nat),
    Error,
>
    decreases fuel,
{
    match spec_read_string(s) {
        Err(e) => Err(e),
        Ok((name, k1)) => if name.len() == 0 {
            Ok((Seq::empty(), k1))
        } else if fuel == 0 {
            Err(Error::ProtocolLimitExceeded)
        } else {
                match spec_read_string(s.skip(k1 as int)) {
                    Err(e) => Err(e),
                    Ok((value, k2)) => match spec_read_settings(
                        s.skip((k1 + k2) as int),
                        (fuel - 1) as nat,
                    ) {
                        Ok((rest, k3)) => Ok(
                            (seq![SettingModel { name, value }] + rest, k1 + k2 + k3),
                        ),
                        Err(e) => Err(e),
                    },
                }
        }
    }
}

pub open spec fn spec_read_query(s: Seq<u8>) -> Result<(QueryModel, nat), Error> {
    match spec_read_string(s) {
        Err(e) => Err(e),
        Ok((query_id, k1)) => match spec_read_settings(s.skip(k1 as int), MAX_SETTINGS as nat) {
            Err(e) => Err(e),
            Ok((settings, k2)) => match spec_read_varint(s.skip((k1 + k2) as int)) {
                Err(e) => Err(e),
                Ok((stage, k3)) => match spec_read_varint(s.skip((k1 + k2 + k3) as int)) {
                    Err(e) => Err(e),
                    Ok((compression, k4)) => match spec_read_string(
                        s.skip((k1 + k2 + k3 + k4) as int),
                    ) {
                        Err(e) => Err(e),
                        Ok((query, k5)) => Ok(
                            (
                                QueryModel { query_id, settings, stage, compression, query },
                                k1 + k2 + k3 + k4 + k5,
                            ),
                        ),
                    },
                },
            },
        },
    }
}

/// A client packet at the start of `s`: its tag, then the fields of its
/// kind. Data is read only when no compression was negotiated.
pub open spec fn spec_read_packet(s: Seq<u8>, compressed: bool) -> Result<
    (ClientPacketModel, nat),
    Error,
> {
    match spec_read_varint(s) {
        Err(e) => Err(e),
        Ok((tag, k)) => {
            let r = s.skip(k as int);
            if tag == CLIENT_HELLO {
                match spec_read_hello(r) {
                    Ok((h, n)) => Ok((ClientPacketModel::Hello(h), k + n)),
                    Err(e) => Err(e),
                }
            } else if tag == CLIENT_QUERY {
                match spec_read_query(r) {
                    Ok((q, n)) => Ok((ClientPacketModel::Query(q), k + n)),
                    Err(e) => Err(e),
                }
            } else if tag == CLIENT_DATA {
                if compressed {
                    Err(Error::UnsupportedRevision)
                } else {
                    match spec_read_string(r) {
                        Err(e) => Err(e),
                        Ok((table, n1)) => match spec_read_block(r.skip(n1 as int)) {
                            Err(e) => Err(e),
                            Ok((block, n2)) => Ok(
                                (ClientPacketModel::Data { table, block }, k + n1 + n2),
                            ),
                        },
                    }
                }
            } else if tag == CLIENT_CANCEL {
                Ok((ClientPacketModel::Cancel, k))
            } else if tag == CLIENT_PING {
                Ok((ClientPacketModel::Ping, k))
            } else {
                Err(Error::MalformedPacket)
            }
        },
    }
}

proof fn lemma_skip_skip(s: Seq<u8>, a: int, b: int)
    requires
        0 <= a,
        0 <= b,
        a + b <= s.len(),
    ensures
        s.skip(a).skip(b) == s.skip(a + b),
{
    assert(s.skip(a).skip(b) =~= s.skip(a + b));
}

#[verifier::spinoff_prover]
#[verifier::rlimit(100)]
fn read_hello(buf: &[u8], pos: usize) -> (r: Result<(HelloRequest, usize), Error>)
    requires
        pos <= buf@.len(),
    ensures
        decoded(r, spec_read_hello(buf@.skip(pos as int)), pos),
        r matches Ok((_, p)) ==> p <= buf@.len(),
{
    let ghost s = buf@.skip(pos as int);
    let (client_name, at1) = match read_string(buf, pos) {
        Ok(v) => v,
        Err(e) => {
            return Err(e);
        },
    };
    proof { lemma_skip_skip(buf@, pos as int, at1 - pos); }
    let (version_major, at2) = match read_varint(buf, at1) {
        Ok(v) => v,
        Err(e) => {
            return Err(e);
        },
    };
    proof { lemma_skip_skip(buf@, pos as int, at2 - pos); }
    let (version_minor, at3) = match read_varint(buf, at2) {
        Ok(v) => v,
        Err(e) => {
            return Err(e);
        },
    };
    proof { lemma_skip_skip(buf@, pos as int, at3 - pos); }
    let (revision, at4) = match read_varint(buf, at3) {
        Ok(v) => v,
        Err(e) => {
            return Err(e);
        },
    };
    proof { lemma_skip_skip(buf@, pos as int, at4 - pos); }
    let (database, at5) = match read_string(buf, at4) {
        Ok(v) => v,
        Err(e) => {
            return Err(e);
        },
    };
    proof { lemma_skip_skip(buf@, pos as int, at5 - pos); }
    let (user, at6) = match read_string(buf, at5) {
        Ok(v) => v,
        Err(e) => {
            return Err(e);
        },
    };
    proof { lemma_skip_skip(buf@, pos as int, at6 - pos); }
    let (password, at7) = match read_string(buf, at6) {
        Ok(v) => v,
        Err(e) => {
            return Err(e);
        },
    };
    Ok((
        HelloRequest {
            client_name,
            version_major,
            version_minor,
            revision,
            database,
            user,
            password,
        },
        at7,
    ))
}

#[verifier::spinoff_prover]
#[verifier::rlimit(100)]
fn read_settings(buf: &[u8], pos: usize) -> (r: Result<(Vec<Setting>, usize), Error>)
    requires
        pos <= buf@.len(),
    ensures
        match spec_read_settings(buf@.skip(pos as int), MAX_SETTINGS as nat) {
            Ok((ss, k)) => r matches Ok((v, p)) && settings_view(v@) == ss && p == pos + k
                && p <= buf@.len(),
            Err(e) => r == Err::<(Vec<Setting>, usize), Error>(e),
        },
{
    let fuel: u64 = MAX_SETTINGS;
    let mut out: Vec<Setting> = Vec::new();
    let mut p: usize = pos;
    let mut i: u64 = 0;
    loop
        invariant
            pos <= p <= buf@.len(),
            fuel == MAX_SETTINGS,
            i <= fuel,
            spec_read_settings(buf@.skip(pos as int), fuel as nat) == crate::block::list_after(
                settings_view(out@),
                (p - pos) as nat,
                spec_read_settings(buf@.skip(p as int), (fuel - i) as nat),
            ),
        decreases fuel - i,
    {
        let ghost acc = settings_view(out@);
        let (name, at1) = match read_string(buf, p) {
            Ok(v) => v,
            Err(e) => {
                return Err(e);
            },
        };
        proof { lemma_skip_skip(buf@, p as int, at1 - p); }
        if name.as_str().is_empty() {
            assert(acc + Seq::<SettingModel>::empty() =~= acc);
            return Ok((out, at1));
        }
        if i == fuel {
            return Err(Error::ProtocolLimitExceeded);
        }
        let (value, at2) = match read_string(buf, at1) {
            Ok(v) => v,
            Err(e) => {
                return Err(e);
            },
        };
        proof {
            lemma_skip_skip(buf@, p as int, at2 - p);
            let st = SettingModel { name: name@, value: value@ };
            if let Ok((ss, k3)) = spec_read_settings(buf@.skip(at2 as int), (fuel - i - 1) as nat) {
                assert(acc + (seq![st] + ss) =~= (acc + seq![st]) + ss);
            }
        }
        out.push(Setting { name, value });
        assert(settings_view(out@) =~= acc + seq![out@.last()@]);
        p = at2;
        i = i + 1;
    }
}

#[verifier::spinoff_prover]
#[verifier::rlimit(100)]
fn read_query(buf: &[u8], pos: usize) -> (r: Result<(QueryRequest, usize), Error>)
    requires
        pos <= buf@.len(),
    ensures
        decoded(r, spec_read_query(buf@.skip(pos as int)), pos),
        r matches Ok((_, p)) ==> p <= buf@.len(),
{
    let (query_id, at1) = match read_string(buf, pos) {
        Ok(v) => v,
        Err(e) => {
            return Err(e);
        },
    };
    proof { lemma_skip_skip(buf@, pos as int, at1 - pos); }
    let (settings, at2) = match read_settings(buf, at1) {
        Ok(v) => v,
        Err(e) => {
            return Err(e);
        },
    };
    proof { lemma_skip_skip(buf@, pos as int, at2 - pos); }
    let (stage, at3) = match read_varint(buf, at2) {
        Ok(v) => v,
        Err(e) => {
            return Err(e);
        },
    };
    proof { lemma_skip_skip(buf@, pos as int, at3 - pos); }
    let (compression, at4) = match read_varint(buf, at3) {
        Ok(v) => v,
        Err(e) => {
            return Err(e);
        },
    };
    proof { lemma_skip_skip(buf@, pos as int, at4 - pos); }
    let (query, at5) = match read_string(buf, at4) {
        Ok(v) => v,
        Err(e) => {
            return Err(e);
        },
    };
    Ok((QueryRequest { query_id, settings, stage, compression, query }, at5))
}

/// Reads the client packet at `pos`. At the end of the input there is no
/// packet; any other input either holds one whole packet there or fails.
#[verifier::spinoff_prover]
#[verifier::rlimit(100)]
pub fn read_packet(buf: &[u8], pos: usize, compressed: bool) -> (r: Result<
    Option<(ClientPacket, usize)>,
    Error,
>)
    requires
        pos <= buf@.len(),
    ensures
        pos == buf@.len() ==> r == Ok::<Option<(ClientPacket, usize)>, Error>(None),
        pos < buf@.len() ==> match spec_read_packet(buf@.skip(pos as int), compressed) {
            Ok((m, k)) => r matches Ok(Some((p, e))) && p@ == m && e == pos + k
                && e <= buf@.len(),
            Err(err) => r == Err::<Option<(ClientPacket, usize)>, Error>(err),
        },
{
    if pos == buf.len() {
        return Ok(None);
    }
    let ghost s = buf@.skip(pos as int);
    let (tag, at1) = match read_varint(buf, pos) {
        Ok(v) => v,
        Err(e) => {
            return Err(e);
        },
    };
    proof { lemma_skip_skip(buf@, pos as int, at1 - pos); }
    if tag == CLIENT_HELLO {
        match read_hello(buf, at1) {
            Ok((h, p)) => Ok(Some((ClientPacket::Hello(h), p))),
            Err(e) => Err(e),
        }
    } else if tag == CLIENT_QUERY {
        match read_query(buf, at1) {
            Ok((q, p)) => Ok(Some((ClientPacket::Query(q), p))),
            Err(e) => Err(e),
        }
    } else if tag == CLIENT_DATA {
        if compressed {
            return Err(Error::UnsupportedRevision);
        }
        let (table, at2) = match read_string(buf, at1) {
            Ok(v) => v,
            Err(e) => {
                return Err(e);
            },
        };
        proof { lemma_skip_skip(buf@, at1 as int, at2 - at1); }
        match read_block(buf, at2) {
            Ok((block, p)) => Ok(Some((ClientPacket::Data { table, block }, p))),
            Err(e) => Err(e),
        }
    } else if tag == CLIENT_CANCEL {
        Ok(Some((ClientPacket::Cancel, at1)))
    } else if tag == CLIENT_PING {
        Ok(Some((ClientPacket::Ping, at1)))
    } else {
        Err(Error::MalformedPacket)
    }
}

} // verus!

verus! {

/// The server's answer to a client hello.
#[derive(Debug, Clone, PartialEq, Eq)]
pub struct HelloResponse {
    pub server_name: String,
    pub version_major: u64,
    pub version_minor: u64,
    pub version_patch: u64,
    pub revision: u64,
    pub timezone: String,
    pub display_name: String,
}

pub struct HelloResponseModel {
    pub server_name: Seq<char>,
    pub version_major: u64,
    pub version_minor: u64,
    pub version_patch: u64,
    pub revision: u64,
    pub timezone: Seq<char>,
    pub display_name: Seq<char>,
}

impl View for HelloResponse {
    type V = HelloResponseModel;

    open spec fn view(&self) -> HelloResponseModel {
        HelloResponseModel {
            server_name: self.server_name@,
            version_major: self.version_major,
            version_minor: self.version_minor,
            version_patch: self.version_patch,
            revision: self.revision,
            timezone: self.timezone@,
            display_name: self.display_name@,
        }
    }
}

/// Counters of an executing query.
#[derive(Debug, Clone, Copy, PartialEq, Eq, Structural, Default)]
pub struct Progress {
    pub rows: u64,
    pub bytes: u64,
    pub total_rows: u64,
    pub written_rows: u64,
    pub written_bytes: u64,
}

pub open spec fn opt_bytes(present: bool, b: Seq<u8>) -> Seq<u8> {
    if present {
        b
    } else {
        Seq::empty()
    }
}

/// The server hello as a client of revision `client_revision` reads it.
pub open spec fn hello_response_bytes(r: HelloResponseModel, client_revision: u64) -> Seq<u8> {
    varint_bytes(SERVER_HELLO as nat) + string_field(r.server_name) + varint_bytes(
        r.version_major as nat,
    ) + varint_bytes(r.version_minor as nat) + varint_bytes(r.revision as nat) + opt_bytes(
        client_revision >= REVISION_WITH_TIMEZONE,
        string_field(r.timezone),
    ) + opt_bytes(
        client_revision >= REVISION_WITH_DISPLAY_NAME,
        string_field(r.display_name),
    ) + opt_bytes(client_revision >= REVISION_WITH_PATCH, varint_bytes(r.version_patch as nat))
}

pub open spec fn progress_bytes(p: Progress, client_revision: u64) -> Seq<u8> {
    varint_bytes(SERVER_PROGRESS as nat) + varint_bytes(p.rows as nat) + varint_bytes(
        p.bytes as nat,
    ) + varint_bytes(p.total_rows as nat) + opt_bytes(
        client_revision >= REVISION_WITH_WRITE_PROGRESS,
        varint_bytes(p.written_rows as nat) + varint_bytes(p.written_bytes as nat),
    )
}

/// A data packet: an empty table name, then the block.
pub open spec fn data_bytes(b: BlockModel) -> Seq<u8> {
    varint_bytes(SERVER_DATA as nat) + bytes_field(Seq::empty()) + block_bytes(b)
}

/// An exception packet: the code in four bytes, the name, the message, the
/// stack trace, and a zero byte for "no nested exception".
pub open spec fn exception_bytes(
    code: u32,
    name: Seq<char>,
    message: Seq<char>,
    stack_trace: Seq<char>,
) -> Seq<u8> {
    varint_bytes(SERVER_EXCEPTION as nat) + le_bytes(code as nat, 4) + string_field(name)
        + string_field(message) + string_field(stack_trace) + le_bytes(0, 1)
}

#[verifier::spinoff_prover]
#[verifier::rlimit(100)]
pub fn write_hello_response(buf: &mut Vec<u8>, r: &HelloResponse, client_revision: u64)
    ensures
        final(buf)@ == old(buf)@ + hello_response_bytes(r@, client_revision),
{
    write_varint(buf, SERVER_HELLO);
    write_string(buf, r.server_name.as_str());
    write_varint(buf, r.version_major);
    write_varint(buf, r.version_minor);
    write_varint(buf, r.revision);
    let ghost b1 = buf@;
    if client_revision >= REVISION_WITH_TIMEZONE {
        write_string(buf, r.timezone.as_str());
    }
    let ghost b2 = buf@;
    if client_revision >= REVISION_WITH_DISPLAY_NAME {
        write_string(buf, r.display_name.as_str());
    }
    let ghost b3 = buf@;
    if client_revision >= REVISION_WITH_PATCH {
        write_varint(buf, r.version_patch);
    }
    assert(b2 =~= b1 + opt_bytes(client_revision >= REVISION_WITH_TIMEZONE, string_field(r.timezone@)));
    assert(b3 =~= b2 + opt_bytes(
        client_revision >= REVISION_WITH_DISPLAY_NAME,
        string_field(r.display_name@),
    ));
    assert(buf@ =~= b3 + opt_bytes(
        client_revision >= REVISION_WITH_PATCH,
        varint_bytes(r.version_patch as nat),
    ));
    assert(buf@ =~= old(buf)@ + hello_response_bytes(r@, client_revision));
}

pub fn write_progress(buf: &mut Vec<u8>, p: &Progress, client_revision: u64)
    ensures
        final(buf)@ == old(buf)@ + progress_bytes(*p, client_revision),
{
    write_varint(buf, SERVER_PROGRESS);
    write_varint(buf, p.rows);
    write_varint(buf, p.bytes);
    write_varint(buf, p.total_rows);
    let ghost b1 = buf@;
    if client_revision >= REVISION_WITH_WRITE_PROGRESS {
        write_varint(buf, p.written_rows);
        write_varint(buf, p.written_bytes);
    }
    assert(buf@ =~= b1 + opt_bytes(
        client_revision >= REVISION_WITH_WRITE_PROGRESS,
        varint_bytes(p.written_rows as nat) + varint_bytes(p.written_bytes as nat),
    ));
    assert(buf@ =~= old(buf)@ + progress_bytes(*p, client_revision));
}

pub fn write_data(buf: &mut Vec<u8>, b: &Block)
    ensures
        final(buf)@ == old(buf)@ + data_bytes(b@),
{
    write_varint(buf, SERVER_DATA);
    write_varint(buf, 0);
    write_block(buf, b);
    assert(buf@ =~= old(buf)@ + data_bytes(b@));
}

pub fn write_exception(
    buf: &mut Vec<u8>,
    code: u32,
    name: &str,
    message: &str,
    stack_trace: &str,
)
    ensures
        final(buf)@ == old(buf)@ + exception_bytes(code, name@, message@, stack_trace@),
{
    write_varint(buf, SERVER_EXCEPTION);
    write_fixed(buf, code as u64, 4);
    write_string(buf, name);
    write_string(buf, message);
    write_string(buf, stack_trace);
    write_fixed(buf, 0, 1);
    assert(buf@ =~= old(buf)@ + exception_bytes(code, name@, message@, stack_trace@));
}

pub fn write_pong(buf: &mut Vec<u8>)
    ensures
        final(buf)@ == old(buf)@ + varint_bytes(SERVER_PONG as nat),
{
    write_varint(buf, SERVER_PONG);
}

pub fn write_end_of_stream(buf: &mut Vec<u8>)
    ensures
        final(buf)@ == old(buf)@ + varint_bytes(SERVER_END_OF_STREAM as nat),
{
    write_varint(buf, SERVER_END_OF_STREAM);
}

/// The wire form of a settings list: each name and value, then an empty
/// name.
pub open spec fn settings_bytes(ss: Seq<SettingModel>) -> Seq<u8>
    decreases ss.len(),
{
    if ss.len() == 0 {
        string_field(Seq::empty())
    } else {
        string_field(ss[0].name) + string_field(ss[0].value) + settings_bytes(ss.drop_first())
    }
}


pub open spec fn text_fits(c: Seq<char>) -> bool {
    encode_utf8(c).len() <= MAX_STRING_LEN
}

/// Every text fits the length bound, the settings fit their count bound, and
/// no setting has an empty name.
pub open spec fn query_wf(q: QueryModel) -> bool {
    &&& q.settings.len() <= MAX_SETTINGS
    &&& text_fits(q.query_id)
    &&& text_fits(q.query)
    &&& forall|i: int|
        0 <= i < q.settings.len() ==> text_fits(#[trigger] q.settings[i].name) && text_fits(
            q.settings[i].value,
        ) && q.settings[i].name.len() > 0
}

proof fn lemma_string_field_read(c: Seq<char>, rest: Seq<u8>)
    requires
        text_fits(c),
    ensures
        spec_read_string(string_field(c) + rest) == Ok::<(Seq<char>, nat), Error>(
            (c, string_field(c).len()),
        ),
        string_field(c).len() >= 1,
{
    lemma_string_round_trip(c, rest);
}

#[verifier::spinoff_prover]
proof fn lemma_settings_step(
    s: Seq<u8>,
    fuel: nat,
    name: Seq<char>,
    k1: nat,
    value: Seq<char>,
    k2: nat,
    tail: Seq<SettingModel>,
    k3: nat,
)
    requires
        fuel > 0,
        name.len() > 0,
        spec_read_string(s) == Ok::<(Seq<char>, nat), Error>((name, k1)),
        spec_read_string(s.skip(k1 as int)) == Ok::<(Seq<char>, nat), Error>((value, k2)),
        spec_read_settings(s.skip((k1 + k2) as int), (fuel - 1) as nat) == Ok::<
            (Seq<SettingModel>, nat),
            Error,
        >((tail, k3)),
    ensures
        spec_read_settings(s, fuel) == Ok::<(Seq<SettingModel>, nat), Error>(
            (seq![SettingModel { name, value }] + tail, k1 + k2 + k3),
        ),
{
}

#[verifier::spinoff_prover]
#[verifier::rlimit(100)]
proof fn lemma_settings_round_trip(ss: Seq<SettingModel>, fuel: nat, rest: Seq<u8>)
    requires
        fuel >= ss.len(),
        forall|i: int|
            0 <= i < ss.len() ==> text_fits(#[trigger] ss[i].name) && text_fits(ss[i].value)
                && ss[i].name.len() > 0,
    ensures
        spec_read_settings(settings_bytes(ss) + rest, fuel) == Ok::<(Seq<SettingModel>, nat), Error>(
            (ss, settings_bytes(ss).len()),
        ),
    decreases ss.len(),
{
    if ss.len() > 0 {
        let tail = ss.drop_first();
        assert(text_fits(ss[0].name) && text_fits(ss[0].value) && ss[0].name.len() > 0);
        assert forall|i: int| 0 <= i < tail.len() implies text_fits(#[trigger] tail[i].name)
            && text_fits(tail[i].value) && tail[i].name.len() > 0 by {
            assert(tail[i] == ss[i + 1]);
        }
        let n = string_field(ss[0].name);
        let v = string_field(ss[0].value);
        let tb = settings_bytes(tail);
        let whole = settings_bytes(ss) + rest;
        assert(whole =~= n + (v + tb + rest));
        lemma_string_field_read(ss[0].name, v + tb + rest);
        lemma_settings_round_trip(tail, (fuel - 1) as nat, rest);
        assert(whole.skip(n.len() as int) =~= v + (tb + rest));
        lemma_string_field_read(ss[0].value, tb + rest);
        assert(whole.skip((n.len() + v.len()) as int) =~= tb + rest);
        lemma_settings_step(whole, fuel, ss[0].name, n.len(), ss[0].value, v.len(), tail, tb.len());
        assert(seq![SettingModel { name: ss[0].name, value: ss[0].value }] + tail =~= ss);
    } else {
        lemma_string_field_read(Seq::empty(), rest);
        assert(settings_bytes(ss) + rest =~= string_field(Seq::empty()) + rest);
        assert(ss =~= Seq::<SettingModel>::empty());
    }
}

#[verifier::spinoff_prover]
proof fn lemma_query_step(
    s: Seq<u8>,
    q: QueryModel,
    k1: nat,
    k2: nat,
    k3: nat,
    k4: nat,
    k5: nat,
)
    requires
        spec_read_string(s) == Ok::<(Seq<char>, nat), Error>((q.query_id, k1)),
        spec_read_settings(s.skip(k1 as int), MAX_SETTINGS as nat) == Ok::<
            (Seq<SettingModel>, nat),
            Error,
        >((q.settings, k2)),
        spec_read_varint(s.skip((k1 + k2) as int)) == Ok::<(u64, nat), Error>((q.stage, k3)),
        spec_read_varint(s.skip((k1 + k2 + k3) as int)) == Ok::<(u64, nat), Error>(
            (q.compression, k4),
        ),
        spec_read_string(s.skip((k1 + k2 + k3 + k4) as int)) == Ok::<(Seq<char>, nat), Error>(
            (q.query, k5),
        ),
    ensures
        spec_read_query(s) == Ok::<(QueryModel, nat), Error>((q, k1 + k2 + k3 + k4 + k5)),
{
}

#[verifier::spinoff_prover]
proof fn lemma_query_packet_step(w: Seq<u8>, compressed: bool, q: QueryModel, k: nat, n: nat)
    requires
        spec_read_varint(w) == Ok::<(u64, nat), Error>((CLIENT_QUERY, k)),
        spec_read_query(w.skip(k as int)) == Ok::<(QueryModel, nat), Error>((q, n)),
    ensures
        spec_read_packet(w, compressed) == Ok::<(ClientPacketModel, nat), Error>(
            (ClientPacketModel::Query(q), k + n),
        ),
{
}

/// The fields of a `Query` packet after its tag.
pub open spec fn query_body_bytes(q: QueryModel) -> Seq<u8> {
    string_field(q.query_id) + (settings_bytes(q.settings) + (varint_bytes(q.stage as nat) + (
    varint_bytes(q.compression as nat) + string_field(q.query))))
}

/// The wire form of a client `Query` packet.
pub open spec fn query_packet_bytes(q: QueryModel) -> Seq<u8> {
    varint_bytes(CLIENT_QUERY as nat) + query_body_bytes(q)
}

#[verifier::spinoff_prover]
#[verifier::rlimit(100)]
proof fn lemma_query_body_round_trip(q: QueryModel, rest: Seq<u8>)
    requires
        query_wf(q),
    ensures
        spec_read_query(query_body_bytes(q) + rest) == Ok::<(QueryModel, nat), Error>(
            (q, query_body_bytes(q).len()),
        ),
{
    let i = string_field(q.query_id);
    let sb = settings_bytes(q.settings);
    let st = varint_bytes(q.stage as nat);
    let c = varint_bytes(q.compression as nat);
    let qb = string_field(q.query);
    let r4 = qb + rest;
    let r3 = c + r4;
    let r2 = st + r3;
    let r1 = sb + r2;
    let s = query_body_bytes(q) + rest;
    assert(s =~= i + r1);
    lemma_string_field_read(q.query_id, r1);
    assert(s.skip(i.len() as int) =~= r1);
    lemma_settings_round_trip(q.settings, MAX_SETTINGS as nat, r2);
    assert(s.skip((i.len() + sb.len()) as int) =~= r2);
    lemma_varint_round_trip(q.stage, r3);
    assert(s.skip((i.len() + sb.len() + st.len()) as int) =~= r3);
    lemma_varint_round_trip(q.compression, r4);
    assert(s.skip((i.len() + sb.len() + st.len() + c.len()) as int) =~= r4);
    lemma_string_field_read(q.query, rest);
    lemma_query_step(s, q, i.len(), sb.len(), st.len(), c.len(), qb.len());
}

/// Reading back an encoded `Query` packet gives the query, its id, text and
/// settings character for character, and consumes exactly the packet.
pub proof fn lemma_query_packet_round_trip(q: QueryModel, compressed: bool, rest: Seq<u8>)
    requires
        query_wf(q),
    ensures
        spec_read_packet(query_packet_bytes(q) + rest, compressed) == Ok::<
            (ClientPacketModel, nat),
            Error,
        >((ClientPacketModel::Query(q), query_packet_bytes(q).len())),
{
    let t = varint_bytes(CLIENT_QUERY as nat);
    let b = query_body_bytes(q);
    let whole = query_packet_bytes(q) + rest;
    assert(whole =~= t + (b + rest));
    lemma_varint_round_trip(CLIENT_QUERY, b + rest);
    assert(whole.skip(t.len() as int) =~= b + rest);
    lemma_query_body_round_trip(q, rest);
    lemma_query_packet_step(whole, compressed, q, t.len(), b.len());
}

#[verifier::spinoff_prover]
#[verifier::rlimit(100)]
proof fn lemma_settings_prefix(s: Seq<u8>, fuel: nat, m: nat)
    requires
        spec_read_settings(s, fuel) is Ok,
        m <= s.len(),
    ensures
        spec_read_settings(s.take(m as int), fuel) == cut(spec_read_settings(s, fuel), m),
    decreases fuel,
{
    lemma_string_prefix(s, m);
    let o1: nat = spec_read_string(s)->Ok_0.1;
    if m >= o1 && spec_read_string(s)->Ok_0.0.len() > 0 {
        lemma_take_skip(s, o1, m);
        lemma_string_prefix(s.skip(o1 as int), (m - o1) as nat);
        let o2: nat = o1 + spec_read_string(s.skip(o1 as int))->Ok_0.1;
        if m >= o2 {
            lemma_take_skip(s, o2, m);
            lemma_settings_prefix(s.skip(o2 as int), (fuel - 1) as nat, (m - o2) as nat);
        }
    }
}

#[verifier::spinoff_prover]
#[verifier::rlimit(100)]
proof fn lemma_hello_prefix(s: Seq<u8>, m: nat)
    requires
        spec_read_hello(s) is Ok,
        m <= s.len(),
    ensures
        spec_read_hello(s.take(m as int)) == cut(spec_read_hello(s), m),
{
    lemma_string_prefix(s, m);
    let o1: nat = 0 + spec_read_string(s)->Ok_0.1;
    if m >= o1 {
        lemma_take_skip(s, o1, m);
        lemma_varint_prefix(s.skip(o1 as int), (m - o1) as nat);
        let o2: nat = o1 + spec_read_varint(s.skip(o1 as int))->Ok_0.1;
        if m >= o2 {
            lemma_take_skip(s, o2, m);
            lemma_varint_prefix(s.skip(o2 as int), (m - o2) as nat);
            let o3: nat = o2 + spec_read_varint(s.skip(o2 as int))->Ok_0.1;
            if m >= o3 {
                lemma_take_skip(s, o3, m);
                lemma_varint_prefix(s.skip(o3 as int), (m - o3) as nat);
                let o4: nat = o3 + spec_read_varint(s.skip(o3 as int))->Ok_0.1;
                if m >= o4 {
                    lemma_take_skip(s, o4, m);
                    lemma_string_prefix(s.skip(o4 as int), (m - o4) as nat);
                    let o5: nat = o4 + spec_read_string(s.skip(o4 as int))->Ok_0.1;
                    if m >= o5 {
                        lemma_take_skip(s, o5, m);
                        lemma_string_prefix(s.skip(o5 as int), (m - o5) as nat);
                        let o6: nat = o5 + spec_read_string(s.skip(o5 as int))->Ok_0.1;
                        if m >= o6 {
                            lemma_take_skip(s, o6, m);
                            lemma_string_prefix(s.skip(o6 as int), (m - o6) as nat);
                        }
                    }
                }
            }
        }
    }
}

#[verifier::spinoff_prover]
#[verifier::rlimit(100)]
proof fn lemma_query_prefix(s: Seq<u8>, m: nat)
    requires
        spec_read_query(s) is Ok,
        m <= s.len(),
    ensures
        spec_read_query(s.take(m as int)) == cut(spec_read_query(s), m),
{
    lemma_string_prefix(s, m);
    let o1: nat = 0 + spec_read_string(s)->Ok_0.1;
    if m >= o1 {
        lemma_take_skip(s, o1, m);
        lemma_settings_prefix(s.skip(o1 as int), MAX_SETTINGS as nat, (m - o1) as nat);
        let o2: nat = o1 + spec_read_settings(s.skip(o1 as int), MAX_SETTINGS as nat)->Ok_0.1;
        if m >= o2 {
            lemma_take_skip(s, o2, m);
            lemma_varint_prefix(s.skip(o2 as int), (m - o2) as nat);
            let o3: nat = o2 + spec_read_varint(s.skip(o2 as int))->Ok_0.1;
            if m >= o3 {
                lemma_take_skip(s, o3, m);
                lemma_varint_prefix(s.skip(o3 as int), (m - o3) as nat);
                let o4: nat = o3 + spec_read_varint(s.skip(o3 as int))->Ok_0.1;
                if m >= o4 {
                    lemma_take_skip(s, o4, m);
                    lemma_string_prefix(s.skip(o4 as int), (m - o4) as nat);
                }
            }
        }
    }
}

/// A client packet read on a prefix of its input: the same packet once the
/// prefix holds all of it. Every proper prefix of a packet is incomplete,
/// which the connection reports as malformed once no more input can come.
#[verifier::spinoff_prover]
#[verifier::rlimit(100)]
pub proof fn lemma_packet_prefix(s: Seq<u8>, compressed: bool, m: nat)
    requires
        spec_read_packet(s, compressed) is Ok,
        m <= s.len(),
    ensures
        spec_read_packet(s.take(m as int), compressed) == cut(spec_read_packet(s, compressed), m),
        m < spec_read_packet(s, compressed)->Ok_0.1 ==> spec_read_packet(
            s.take(m as int),
            compressed,
        ) == Err::<(ClientPacketModel, nat), Error>(Error::Incomplete),
{
    lemma_varint_prefix(s, m);
    let o1: nat = spec_read_varint(s)->Ok_0.1;
    let tag = spec_read_varint(s)->Ok_0.0;
    if m >= o1 {
        lemma_take_skip(s, o1, m);
        let r = s.skip(o1 as int);
        let rm = (m - o1) as nat;
        if tag == CLIENT_HELLO {
            lemma_hello_prefix(r, rm);
        } else if tag == CLIENT_QUERY {
            lemma_query_prefix(r, rm);
        } else if tag == CLIENT_DATA {
            lemma_string_prefix(r, rm);
            let o2: nat = spec_read_string(r)->Ok_0.1;
            if rm >= o2 {
                lemma_take_skip(r, o2, rm);
                assert(s.take(m as int).skip(o1 as int).skip(o2 as int) == r.skip(o2 as int).take(
                    rm - o2,
                ));
                lemma_block_prefix(r.skip(o2 as int), (rm - o2) as nat);
            }
        }
    }
}

} // verus!

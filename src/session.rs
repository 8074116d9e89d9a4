//! What a backend tells the engine about itself. Every method has a default,
//! so that a backend overrides only what differs.
use vstd::prelude::*;
use crate::errors::Error;
use crate::handshake::{ServerSettings, ServerVersion};
use crate::protocol::Progress;

verus! {

pub trait ClickHouseSession {
    fn with_stack_trace(&self) -> (r: bool)
        default_ensures
            r == false,
    {
        false
    }

    fn dbms_name(&self) -> (r: &str)
        default_ensures
            r@ == "clickhouse-server"@,
    {
        "clickhouse-server"
    }

    fn dbms_version_major(&self) -> (r: u64)
        default_ensures
            r == 19,
    {
        19
    }

    fn dbms_version_minor(&self) -> (r: u64)
        default_ensures
            r == 17,
    {
        17
    }

    fn dbms_tcp_protocol_version(&self) -> (r: u64)
        default_ensures
            r == 54428,
    {
        54428
    }

    fn timezone(&self) -> (r: &str)
        default_ensures
            r@ == "UTC"@,
    {
        "UTC"
    }

    fn server_display_name(&self) -> (r: &str)
        default_ensures
            r@ == "clickhouse-server"@,
    {
        "clickhouse-server"
    }

    fn dbms_version_patch(&self) -> (r: u64)
        default_ensures
            r == 1,
    {
        1
    }

    fn get_progress(&self) -> (r: Progress)
        default_ensures
            r == (Progress { rows: 0, bytes: 0, total_rows: 0, written_rows: 0, written_bytes: 0 }),
    {
        Progress::zero()
    }

    /// Whether the handshake announces the version that the four version
    /// methods give; when not, the server echoes the client's version.
    fn declares_version(&self) -> (r: bool)
        default_ensures
            r == true,
    {
        true
    }
}

/// The version that the handshake announces: the declared one, or none, in
/// which case the server echoes the client's.
pub fn declared_version(declares: bool, major: u64, minor: u64, patch: u64, revision: u64) -> (r:
    Option<ServerVersion>)
    ensures
        r == (if declares {
            Some(ServerVersion { major, minor, patch, revision })
        } else {
            None
        }),
{
    if declares {
        Some(ServerVersion { major, minor, patch, revision })
    } else {
        None
    }
}

/// The settings that `session` declares, with its timezone checked. What is
/// announced follows [`declared_version`] and [`ServerSettings::new`] over the
/// answers of the session's methods.
pub fn settings_of<S: ClickHouseSession + ?Sized>(session: &S) -> (r: Result<ServerSettings, Error>)
    ensures
        r matches Err(e) ==> e == Error::UnknownTimezone,
{
    let version = declared_version(
        session.declares_version(),
        session.dbms_version_major(),
        session.dbms_version_minor(),
        session.dbms_version_patch(),
        session.dbms_tcp_protocol_version(),
    );
    ServerSettings::new(
        session.dbms_name(),
        session.server_display_name(),
        session.timezone(),
        version,
        session.with_stack_trace(),
    )
}

} // verus!

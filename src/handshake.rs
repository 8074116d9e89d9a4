//! The hello exchange: which version and revision the server reports, and
//! the session-wide parameters that it announces.
use vstd::prelude::*;
use chrono_tz::Tz;
use crate::errors::Error;
use crate::protocol::{HelloModel, HelloRequest, HelloResponse, HelloResponseModel};

verus! {

#[verifier::external_type_specification]
#[verifier::external_body]
pub struct ExTz(chrono_tz::Tz);

/// Whether chrono-tz knows `name` as a zone of the IANA database.
pub uninterp spec fn is_iana_zone(name: Seq<char>) -> bool;

/// Relies on chrono-tz's `FromStr for Tz`: an exact, case-sensitive lookup of
/// the name in the zone table compiled into the crate.
#[verifier::external_body]
fn parse_timezone(name: &str) -> (r: Option<Tz>)
    ensures
        r.is_some() == is_iana_zone(name@),
{
    name.parse::<Tz>().ok()
}

/// A version that the backend declares for the server.
#[derive(Debug, Clone, Copy, PartialEq, Eq, Structural)]
pub struct ServerVersion {
    pub major: u64,
    pub minor: u64,
    pub patch: u64,
    pub revision: u64,
}

/// What the server announces in its hello, with the timezone checked.
#[derive(Debug)]
pub struct ServerSettings {
    pub name: String,
    pub display_name: String,
    pub timezone: String,
    pub tz: Tz,
    pub version: Option<ServerVersion>,
    pub with_stack_trace: bool,
}

pub struct SettingsModel {
    pub name: Seq<char>,
    pub display_name: Seq<char>,
    pub timezone: Seq<char>,
    pub version: Option<ServerVersion>,
    pub with_stack_trace: bool,
}

impl View for ServerSettings {
    type V = SettingsModel;

    open spec fn view(&self) -> SettingsModel {
        SettingsModel {
            name: self.name@,
            display_name: self.display_name@,
            timezone: self.timezone@,
            version: self.version,
            with_stack_trace: self.with_stack_trace,
        }
    }
}

impl ServerSettings {
    /// Settings from plain values; fails unless `timezone` names an IANA zone.
    pub fn new(
        name: &str,
        display_name: &str,
        timezone: &str,
        version: Option<ServerVersion>,
        with_stack_trace: bool,
    ) -> (r: Result<ServerSettings, Error>)
        ensures
            is_iana_zone(timezone@) <==> r.is_ok(),
            r matches Ok(s) ==> s@ == (SettingsModel {
                name: name@,
                display_name: display_name@,
                timezone: timezone@,
                version,
                with_stack_trace,
            }),
            r matches Err(e) ==> e == Error::UnknownTimezone,
    {
        match parse_timezone(timezone) {
            Some(tz) => Ok(
                ServerSettings {
                    name: name.to_owned(),
                    display_name: display_name.to_owned(),
                    timezone: timezone.to_owned(),
                    tz,
                    version,
                    with_stack_trace,
                },
            ),
            None => Err(Error::UnknownTimezone),
        }
    }
}

/// The server hello for client hello `c`: the declared version where the
/// backend declares one, else the client's own version and revision echoed.
pub open spec fn negotiated(c: HelloModel, s: SettingsModel) -> HelloResponseModel {
    match s.version {
        Some(v) => HelloResponseModel {
            server_name: s.name,
            version_major: v.major,
            version_minor: v.minor,
            version_patch: v.patch,
            revision: v.revision,
            timezone: s.timezone,
            display_name: s.display_name,
        },
        None => HelloResponseModel {
            server_name: s.name,
            version_major: c.version_major,
            version_minor: c.version_minor,
            version_patch: 0,
            revision: c.revision,
            timezone: s.timezone,
            display_name: s.display_name,
        },
    }
}

/// Builds the server's answer to client hello `client`.
pub fn negotiate(client: &HelloRequest, settings: &ServerSettings) -> (r: HelloResponse)
    ensures
        r@ == negotiated(client@, settings@),
        r.revision == match settings.version {
            Some(v) => v.revision,
            None => client.revision,
        },
{
    let (major, minor, patch, revision) = match settings.version {
        Some(v) => (v.major, v.minor, v.patch, v.revision),
        None => (client.version_major, client.version_minor, 0, client.revision),
    };
    HelloResponse {
        server_name: settings.name.clone(),
        version_major: major,
        version_minor: minor,
        version_patch: patch,
        revision,
        timezone: settings.timezone.clone(),
        display_name: settings.display_name.clone(),
    }
}

/// The revision reported to a client is the client's own when the backend
/// declares no version, and the declared one otherwise.
pub proof fn lemma_reported_revision(c: HelloModel, s: SettingsModel)
    ensures
        s.version is None ==> negotiated(c, s).revision == c.revision,
        s.version matches Some(v) ==> negotiated(c, s).revision == v.revision,
{
}

} // verus!

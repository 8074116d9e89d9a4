use vstd::prelude::*;

verus! {

/// Failures of the engine. Every one of them ends the connection; errors that
/// a backend reports for a query are a separate type
/// ([`crate::dispatch::QueryError`]).
#[derive(Debug, Clone, Copy, PartialEq, Eq, Structural)]
pub enum Error {
    /// The bytes do not follow the declared layout (unknown packet tag, a
    /// varint longer than ten bytes or above 64 bits, invalid UTF-8), or the
    /// input ended for good inside a packet.
    MalformedPacket,
    /// The input ends inside a field. More input may complete it; once none
    /// can come, the connection reports it as `MalformedPacket`.
    Incomplete,
    /// A declared length is above the configured safety bound.
    ProtocolLimitExceeded,
    /// A column type tag that the codec does not know.
    UnsupportedType,
    /// A wire feature that this engine does not implement (compressed frames).
    UnsupportedRevision,
    /// A packet that is illegal in the current state of the session.
    UnexpectedPacket,
    /// The backend's timezone is not an IANA zone name.
    UnknownTimezone,
}

/// The ClickHouse error code that an exception packet carries for `e`.
pub open spec fn error_code(e: Error) -> u32 {
    match e {
        Error::MalformedPacket => 33,
        Error::Incomplete => 33,
        Error::ProtocolLimitExceeded => 131,
        Error::UnsupportedType => 50,
        Error::UnsupportedRevision => 48,
        Error::UnexpectedPacket => 101,
        Error::UnknownTimezone => 36,
    }
}

pub open spec fn error_message(e: Error) -> Seq<char> {
    match e {
        Error::MalformedPacket => "malformed packet"@,
        Error::Incomplete => "incomplete packet"@,
        Error::ProtocolLimitExceeded => "protocol limit exceeded"@,
        Error::UnsupportedType => "unsupported column type"@,
        Error::UnsupportedRevision => "unsupported protocol feature"@,
        Error::UnexpectedPacket => "unexpected packet"@,
        Error::UnknownTimezone => "unknown timezone"@,
    }
}

impl Error {
    pub fn code(&self) -> (r: u32)
        ensures
            r == error_code(*self),
    {
        match self {
            Error::MalformedPacket => 33,
            Error::Incomplete => 33,
            Error::ProtocolLimitExceeded => 131,
            Error::UnsupportedType => 50,
            Error::UnsupportedRevision => 48,
            Error::UnexpectedPacket => 101,
            Error::UnknownTimezone => 36,
        }
    }

    /// A short description, as a client shows it.
    pub fn message(&self) -> (r: &'static str)
        ensures
            r@ == error_message(*self),
    {
        match self {
            Error::MalformedPacket => "malformed packet",
            Error::Incomplete => "incomplete packet",
            Error::ProtocolLimitExceeded => "protocol limit exceeded",
            Error::UnsupportedType => "unsupported column type",
            Error::UnsupportedRevision => "unsupported protocol feature",
            Error::UnexpectedPacket => "unexpected packet",
            Error::UnknownTimezone => "unknown timezone",
        }
    }
}

} // verus!

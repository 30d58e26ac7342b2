//! The TLS alert taxonomy used by the proxy, and the fatal-alert framing
//! written to a client when the handshake phase fails.

use vstd::prelude::*;

verus! {

/// The only error kinds the proxy distinguishes. Each doubles as the TLS
/// AlertDescription sent to the client on a handshake-phase failure.
#[derive(Clone, Copy, Debug, PartialEq, Eq, Structural)]
pub enum TlsError {
    /// A non-handshake record arrived mid-ClientHello, or the first
    /// handshake message is not a ClientHello.
    UnexpectedMessage,
    /// A record declared a length above 2^14.
    RecordOverflow,
    /// A length field underflowed its budget, a zero-length handshake
    /// fragment arrived, an inner length was inconsistent, or the stream
    /// ended mid-parse.
    DecodeError,
    /// An unclassified I/O failure after the handshake was parsed.
    InternalError,
    /// The handshake deadline expired.
    UserCanceled,
    /// SNI missing or unusable, or no backend answers to the name.
    UnrecognizedName,
}

/// The AlertDescription byte for each error kind.
pub open spec fn alert_code(e: TlsError) -> u8 {
    match e {
        TlsError::UnexpectedMessage => 10,
        TlsError::RecordOverflow => 22,
        TlsError::DecodeError => 50,
        TlsError::InternalError => 80,
        TlsError::UserCanceled => 90,
        TlsError::UnrecognizedName => 112,
    }
}

/// The seven bytes of the fatal alert record for an error kind:
/// alert content type, legacy version 0x0303, length 2, level fatal,
/// then the AlertDescription.
pub open spec fn spec_alert_record(e: TlsError) -> Seq<u8> {
    seq![21u8, 3u8, 3u8, 0u8, 2u8, 2u8, alert_code(e)]
}

impl TlsError {
    /// The AlertDescription byte of this error kind.
    pub fn description(&self) -> (r: u8)
        ensures
            r == alert_code(*self),
    {
        match self {
            TlsError::UnexpectedMessage => 10,
            TlsError::RecordOverflow => 22,
            TlsError::DecodeError => 50,
            TlsError::InternalError => 80,
            TlsError::UserCanceled => 90,
            TlsError::UnrecognizedName => 112,
        }
    }

    /// The complete fatal alert record to write to the client for this
    /// error kind.
    pub fn alert_record(&self) -> (r: Vec<u8>)
        ensures
            r@ == spec_alert_record(*self),
    {
        let mut out: Vec<u8> = Vec::new();
        out.push(21);
        out.push(3);
        out.push(3);
        out.push(0);
        out.push(2);
        out.push(2);
        out.push(self.description());
        proof {
            assert(out@ =~= spec_alert_record(*self));
        }
        out
    }
}

} // verus!

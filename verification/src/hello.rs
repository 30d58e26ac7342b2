//! The handshake reader and the streaming ClientHello parser.
//!
//! The reader accumulates every raw byte received from the client (so the
//! whole prefix can later be replayed to the backend verbatim), keeps the
//! defragmented handshake byte stream beside it, and hands the parser one
//! handshake byte at a time. The parser walks the ClientHello under nested
//! length budgets and extracts the first SNI host_name, already
//! canonicalized; any deviation maps to a TLS alert.
//!
//! Parsing is restartable: it is a pure function of the bytes received so
//! far, so after more bytes arrive the caller simply runs it again.

use vstd::prelude::*;
use crate::alert::TlsError;
use crate::canon::{allowed_byte, canon, label_boundary, lower, lower_seq, valid_canon};
use crate::record::{
    FrameStatus, defrag_bytes, defrag_status, defragment, is_framing, lemma_defrag_len,
    lemma_framing_defrags,
};

verus! {

/// Retention cap for the raw buffer: far above what any ClientHello the
/// parser accepts can demand (a handshake body is below 2^24 bytes, and
/// each record adds five header bytes), yet bounded so that cursor
/// arithmetic cannot overflow.
pub const BUFFER_CAP: usize = 0x1000_0000;

/// The big-endian value of the `n` bytes of `hs` starting at `k`.
pub open spec fn be_val(hs: Seq<u8>, k: int, n: int) -> nat
    decreases n,
{
    if n <= 0 {
        0
    } else {
        (256 * be_val(hs, k, n - 1) + hs[k + n - 1]) as nat
    }
}

/// What one handshake-stream read yields when no byte is available:
/// the defragmentation status decides between "wait for more" and an
/// alert about the offending record.
pub open spec fn stalled_fetch(st: FrameStatus) -> Fetched {
    match st {
        FrameStatus::Incomplete => Fetched::NeedBytes,
        FrameStatus::WrongType => Fetched::Broken(TlsError::UnexpectedMessage),
        FrameStatus::EmptyFragment => Fetched::Broken(TlsError::DecodeError),
        FrameStatus::Oversize => Fetched::Broken(TlsError::RecordOverflow),
    }
}

/// The parse outcome when the parser needs a handshake byte that is not
/// available: end of stream mid-parse is a decode error, otherwise the
/// record layer's own verdict stands.
pub open spec fn stalled_outcome(st: FrameStatus, at_eof: bool) -> SpecOutcome {
    match st {
        FrameStatus::Incomplete => if at_eof {
            SpecOutcome::Alert(TlsError::DecodeError)
        } else {
            SpecOutcome::NeedMore
        },
        FrameStatus::WrongType => SpecOutcome::Alert(TlsError::UnexpectedMessage),
        FrameStatus::EmptyFragment => SpecOutcome::Alert(TlsError::DecodeError),
        FrameStatus::Oversize => SpecOutcome::Alert(TlsError::RecordOverflow),
    }
}

/// Result of one handshake-stream byte read.
#[derive(Debug)]
pub enum Fetched {
    /// The next handshake byte.
    Byte(u8),
    /// The byte is not buffered yet; read more from the client.
    NeedBytes,
    /// The record layer is broken at the point the parser has reached.
    Broken(TlsError),
}

/// Result of one parser run over the bytes received so far.
#[derive(Debug)]
pub enum Outcome {
    /// More client bytes are needed before the ClientHello can be decided.
    NeedMore,
    /// The canonicalized SNI host_name.
    Found(Vec<u8>),
    /// The ClientHello is unusable; send this alert and close.
    Alert(TlsError),
}

/// Ghost-level parse outcome.
pub enum SpecOutcome {
    NeedMore,
    Found(Seq<u8>),
    Alert(TlsError),
}

/// The ghost value of an executable outcome.
pub open spec fn abs_outcome(o: Outcome) -> SpecOutcome {
    match o {
        Outcome::NeedMore => SpecOutcome::NeedMore,
        Outcome::Found(v) => SpecOutcome::Found(v@),
        Outcome::Alert(e) => SpecOutcome::Alert(e),
    }
}

/// Ghost step of a length-prefixed vector skip: the new cursor and budget,
/// or the reason the parse stops.
pub enum SpecStep {
    Go(int, int),
    Stall,
    Fail(TlsError),
}

/// Reading an `n`-byte length at `k` under budget `b`, then skipping that
/// many bytes: budget underflow is a decode error, checked before the
/// bytes need to be available.
pub open spec fn sp_take_vec(hs: Seq<u8>, k: int, b: int, n: int) -> SpecStep {
    if b < n {
        SpecStep::Fail(TlsError::DecodeError)
    } else if hs.len() < k + n {
        SpecStep::Stall
    } else if b - n < be_val(hs, k, n) {
        SpecStep::Fail(TlsError::DecodeError)
    } else {
        SpecStep::Go(k + n + be_val(hs, k, n), b - n - be_val(hs, k, n))
    }
}

/// The ClientHello parse, specified over the defragmented handshake byte
/// stream: handshake type, three-byte body length (the top-level budget),
/// 34 fixed bytes, three length-prefixed vectors, then the extensions.
pub open spec fn sp_parse(hs: Seq<u8>, st: FrameStatus, eof: bool) -> SpecOutcome {
    if hs.len() < 1 {
        stalled_outcome(st, eof)
    } else if hs[0] != 1 {
        SpecOutcome::Alert(TlsError::UnexpectedMessage)
    } else if hs.len() < 4 {
        stalled_outcome(st, eof)
    } else if be_val(hs, 1, 3) < 34 {
        SpecOutcome::Alert(TlsError::DecodeError)
    } else {
        match sp_take_vec(hs, 38, be_val(hs, 1, 3) - 34, 1) {
            SpecStep::Stall => stalled_outcome(st, eof),
            SpecStep::Fail(e) => SpecOutcome::Alert(e),
            SpecStep::Go(k1, b1) => match sp_take_vec(hs, k1, b1, 2) {
                SpecStep::Stall => stalled_outcome(st, eof),
                SpecStep::Fail(e) => SpecOutcome::Alert(e),
                SpecStep::Go(k2, b2) => match sp_take_vec(hs, k2, b2, 1) {
                    SpecStep::Stall => stalled_outcome(st, eof),
                    SpecStep::Fail(e) => SpecOutcome::Alert(e),
                    SpecStep::Go(k3, b3) => sp_extensions(hs, st, eof, k3, b3),
                },
            },
        }
    }
}

/// The extensions block: absent means "SNI absent"; present, its two-byte
/// length must equal exactly the remaining body budget.
pub open spec fn sp_extensions(hs: Seq<u8>, st: FrameStatus, eof: bool, k: int, b: int) -> SpecOutcome {
    if b == 0 {
        SpecOutcome::Alert(TlsError::UnrecognizedName)
    } else if b < 2 {
        SpecOutcome::Alert(TlsError::DecodeError)
    } else if hs.len() < k + 2 {
        stalled_outcome(st, eof)
    } else if b - 2 != be_val(hs, k, 2) {
        SpecOutcome::Alert(TlsError::DecodeError)
    } else {
        sp_ext_loop(hs, st, eof, k + 2, b - 2)
    }
}

/// One extension after another: four header bytes each, non-SNI skipped;
/// inside SNI the server_name_list length must equal the extension's
/// remaining budget. A budget exhausted without a host_name is an
/// unrecognized name.
pub open spec fn sp_ext_loop(hs: Seq<u8>, st: FrameStatus, eof: bool, k: int, b: int) -> SpecOutcome
    decreases b,
{
    if b <= 0 {
        SpecOutcome::Alert(TlsError::UnrecognizedName)
    } else if b < 4 {
        SpecOutcome::Alert(TlsError::DecodeError)
    } else if hs.len() < k + 4 {
        stalled_outcome(st, eof)
    } else {
        let et = be_val(hs, k, 2);
        let el = be_val(hs, k + 2, 2);
        if b - 4 < el {
            SpecOutcome::Alert(TlsError::DecodeError)
        } else if et != 0 {
            sp_ext_loop(hs, st, eof, k + 4 + el, b - 4 - el)
        } else if el < 2 {
            SpecOutcome::Alert(TlsError::DecodeError)
        } else if hs.len() < k + 6 {
            stalled_outcome(st, eof)
        } else if el - 2 != be_val(hs, k + 4, 2) {
            SpecOutcome::Alert(TlsError::DecodeError)
        } else {
            sp_sni_loop(hs, st, eof, k + 6, el - 2)
        }
    }
}

/// The server_name_list: entries of {type, two-byte length, body}; the
/// first host_name entry decides, others are skipped. Hostnames above 254
/// bytes are unrecognized.
pub open spec fn sp_sni_loop(hs: Seq<u8>, st: FrameStatus, eof: bool, k: int, e: int) -> SpecOutcome
    decreases e,
{
    if e <= 0 {
        SpecOutcome::Alert(TlsError::UnrecognizedName)
    } else if e < 3 {
        SpecOutcome::Alert(TlsError::DecodeError)
    } else if hs.len() < k + 3 {
        stalled_outcome(st, eof)
    } else {
        let nt = hs[k];
        let nl = be_val(hs, k + 1, 2);
        if e - 3 < nl {
            SpecOutcome::Alert(TlsError::DecodeError)
        } else if nt != 0 {
            sp_sni_loop(hs, st, eof, k + 3 + nl, e - 3 - nl)
        } else if nl > 254 {
            SpecOutcome::Alert(TlsError::UnrecognizedName)
        } else {
            sp_scan(hs, st, eof, k + 3, nl as int, 0, true, Seq::empty())
        }
    }
}

/// The host_name body, one byte at a time: lowercase-fold, reject a label
/// starting with '.' or '-' or any byte outside [a-z0-9.-], reject a name
/// that ends at a label boundary. Validation is incremental, so a bad byte
/// is rejected even when the rest of the name has not arrived.
pub open spec fn sp_scan(
    hs: Seq<u8>,
    st: FrameStatus,
    eof: bool,
    k: int,
    n: int,
    i: int,
    sol: bool,
    acc: Seq<u8>,
) -> SpecOutcome
    decreases n - i,
{
    if i >= n {
        if sol {
            SpecOutcome::Alert(TlsError::UnrecognizedName)
        } else {
            SpecOutcome::Found(acc)
        }
    } else if hs.len() < k + i + 1 {
        stalled_outcome(st, eof)
    } else {
        let b = lower(hs[k + i]);
        if sol && (b == 45 || b == 46) {
            SpecOutcome::Alert(TlsError::UnrecognizedName)
        } else if allowed_byte(b) {
            sp_scan(hs, st, eof, k, n, i + 1, b == 46, acc.push(b))
        } else {
            SpecOutcome::Alert(TlsError::UnrecognizedName)
        }
    }
}

/// The parse outcome determined by the raw bytes received so far.
pub open spec fn parse_of(raw: Seq<u8>, at_eof: bool) -> SpecOutcome {
    sp_parse(defrag_bytes(raw), defrag_status(raw), at_eof)
}

/// Subtracts `length` from a running budget; underflow is the decode
/// error that every inconsistent TLS length maps to.
pub fn check_length(length: usize, limit: &mut usize) -> (r: Result<(), TlsError>)
    ensures
        match r {
            Ok(()) => length <= *old(limit) && *final(limit) == *old(limit) - length,
            Err(e) => e == TlsError::DecodeError && length > *old(limit) && *final(limit) == *old(
                limit,
            ),
        },
{
    if length <= *limit {
        *limit = *limit - length;
        Ok(())
    } else {
        Err(TlsError::DecodeError)
    }
}

/// A byte source sitting above the TLS record layer. `buffer` retains
/// every raw byte received; `hs` is its defragmented handshake stream,
/// `status` the reason defragmentation stopped, and `offset` the parser's
/// cursor within `hs`.
pub struct TlsHandshakeReader {
    buffer: Vec<u8>,
    hs: Vec<u8>,
    status: FrameStatus,
    offset: usize,
}

impl TlsHandshakeReader {
    /// Every raw byte received so far: exactly what must be replayed to
    /// the backend.
    pub closed spec fn raw(self) -> Seq<u8> {
        self.buffer@
    }

    /// The defragmented handshake byte stream.
    pub closed spec fn hs_view(self) -> Seq<u8> {
        self.hs@
    }

    /// The reason defragmentation stopped at the end of `hs_view`.
    pub closed spec fn st(self) -> FrameStatus {
        self.status
    }

    /// The parser's cursor within the handshake stream.
    pub closed spec fn pos(self) -> int {
        self.offset as int
    }

    /// Well-formedness: the handshake stream and status are those of the
    /// raw bytes, the buffer is under its cap, and the cursor has at most
    /// one pending skip (below 2^24 bytes) beyond the stream's end.
    pub closed spec fn wf(self) -> bool {
        &&& self.hs@ == defrag_bytes(self.buffer@)
        &&& self.status == defrag_status(self.buffer@)
        &&& self.hs@.len() <= self.buffer@.len()
        &&& self.buffer@.len() <= BUFFER_CAP
        &&& self.offset <= self.hs@.len() + 0x100_0000
    }

    /// A reader that has received nothing yet.
    pub fn new() -> (r: Self)
        ensures
            r.wf(),
            r.raw() == Seq::<u8>::empty(),
            r.pos() == 0,
    {
        let buffer: Vec<u8> = Vec::new();
        let hs: Vec<u8> = Vec::new();
        proof {
            assert(defrag_bytes(buffer@) =~= Seq::<u8>::empty());
        }
        TlsHandshakeReader { buffer, hs, status: FrameStatus::Incomplete, offset: 0 }
    }

    /// Appends freshly received client bytes and re-defragments. Returns
    /// false, changing nothing, only when the retention cap would be
    /// passed — which no stream the parser accepts can reach.
    pub fn extend(&mut self, chunk: &[u8]) -> (ok: bool)
        requires
            old(self).wf(),
        ensures
            final(self).wf(),
            final(self).pos() == 0,
            ok ==> final(self).raw() == old(self).raw() + chunk@,
            !ok ==> final(self).raw() == old(self).raw() && old(self).raw().len() + chunk@.len()
                > BUFFER_CAP,
    {
        if chunk.len() > BUFFER_CAP || self.buffer.len() > BUFFER_CAP - chunk.len() {
            self.offset = 0;
            return false;
        }
        let ghost buf0 = self.buffer@;
        let mut i: usize = 0;
        while i < chunk.len()
            invariant
                i <= chunk@.len(),
                buf0.len() + chunk@.len() <= BUFFER_CAP,
                self.buffer@ == buf0 + chunk@.subrange(0, i as int),
                self.hs@ == old(self).hs@,
                self.status == old(self).status,
            decreases chunk@.len() - i,
        {
            self.buffer.push(chunk[i]);
            proof {
                assert(self.buffer@ =~= buf0 + chunk@.subrange(0, i + 1));
            }
            i = i + 1;
        }
        proof {
            assert(self.buffer@ =~= buf0 + chunk@);
            lemma_defrag_len(self.buffer@);
        }
        let (hs, status) = defragment(&self.buffer);
        self.hs = hs;
        self.status = status;
        self.offset = 0;
        true
    }

    /// Resets the parser cursor to the start of the handshake stream.
    pub fn rewind(&mut self)
        requires
            old(self).wf(),
        ensures
            final(self).wf(),
            final(self).raw() == old(self).raw(),
            final(self).hs_view() == old(self).hs_view(),
            final(self).st() == old(self).st(),
            final(self).pos() == 0,
    {
        self.offset = 0;
    }

    /// The next handshake byte, or why it cannot be had yet.
    pub fn read(&mut self) -> (r: Fetched)
        requires
            old(self).wf(),
        ensures
            final(self).wf(),
            final(self).raw() == old(self).raw(),
            final(self).hs_view() == old(self).hs_view(),
            final(self).st() == old(self).st(),
            if old(self).pos() < old(self).hs_view().len() {
                r == Fetched::Byte(old(self).hs_view()[old(self).pos()]) && final(self).pos()
                    == old(self).pos() + 1
            } else {
                r == stalled_fetch(old(self).st()) && final(self).pos() == old(self).pos()
            },
    {
        if self.offset < self.hs.len() {
            let b = self.hs[self.offset];
            self.offset = self.offset + 1;
            Fetched::Byte(b)
        } else {
            match self.status {
                FrameStatus::Incomplete => Fetched::NeedBytes,
                FrameStatus::WrongType => Fetched::Broken(TlsError::UnexpectedMessage),
                FrameStatus::EmptyFragment => Fetched::Broken(TlsError::DecodeError),
                FrameStatus::Oversize => Fetched::Broken(TlsError::RecordOverflow),
            }
        }
    }

    /// Reads `length` (1 to 4) handshake bytes as one big-endian number.
    pub fn read_length(&mut self, length: u8) -> (r: Result<usize, Fetched>)
        requires
            old(self).wf(),
            1 <= length <= 4,
        ensures
            final(self).wf(),
            final(self).raw() == old(self).raw(),
            final(self).hs_view() == old(self).hs_view(),
            final(self).st() == old(self).st(),
            match r {
                Ok(v) => {
                    &&& old(self).pos() + length <= old(self).hs_view().len()
                    &&& v == be_val(old(self).hs_view(), old(self).pos(), length as int)
                    &&& final(self).pos() == old(self).pos() + length
                    &&& v <= 0xffff_ffffusize
                    &&& (length <= 3 ==> v <= 0xff_ffffusize)
                    &&& (length <= 2 ==> v <= 0xffffusize)
                    &&& (length <= 1 ==> v <= 0xffusize)
                },
                Err(f) => {
                    &&& old(self).pos() + length > old(self).hs_view().len()
                    &&& f == stalled_fetch(old(self).st())
                },
            },
    {
        let ghost pos0 = self.pos();
        let mut result: usize = 0;
        let mut j: u8 = 0;
        while j < length
            invariant
                old(self).wf(),
                self.wf(),
                self.raw() == old(self).raw(),
                self.hs_view() == old(self).hs_view(),
                self.st() == old(self).st(),
                0 <= j <= length,
                length <= 4,
                self.pos() == pos0 + j,
                j == 0 || pos0 + j <= self.hs_view().len(),
                pos0 == old(self).pos(),
                result == be_val(self.hs_view(), pos0, j as int),
                result < if j == 0 {
                    1int
                } else if j == 1 {
                    0x100int
                } else if j == 2 {
                    0x1_0000int
                } else if j == 3 {
                    0x100_0000int
                } else {
                    0x1_0000_0000int
                },
            decreases length - j,
        {
            match self.read() {
                Fetched::Byte(b) => {
                    result = result * 256 + (b as usize);
                    j = j + 1;
                },
                Fetched::NeedBytes => {
                    return Err(Fetched::NeedBytes);
                },
                Fetched::Broken(e) => {
                    return Err(Fetched::Broken(e));
                },
            }
        }
        Ok(result)
    }

    /// Advances the cursor by `offset` bytes while charging the caller's
    /// budget; a budget underflow is a decode error (the cursor moves
    /// regardless, as the parse is abandoned on error).
    pub fn seek(&mut self, offset: usize, limit: &mut usize) -> (r: Result<(), TlsError>)
        requires
            old(self).wf(),
            old(self).pos() <= old(self).hs_view().len(),
            offset <= 0x100_0000,
        ensures
            final(self).wf(),
            final(self).raw() == old(self).raw(),
            final(self).hs_view() == old(self).hs_view(),
            final(self).st() == old(self).st(),
            final(self).pos() == old(self).pos() + offset,
            match r {
                Ok(()) => offset <= *old(limit) && *final(limit) == *old(limit) - offset,
                Err(e) => e == TlsError::DecodeError && offset > *old(limit) && *final(limit)
                    == *old(limit),
            },
    {
        self.offset = self.offset + offset;
        check_length(offset, limit)
    }

    /// Hands back the raw buffer: every byte received from the client so
    /// far, in order — the exact prefix to replay to the backend before
    /// any later client bytes.
    pub fn into_buffer(self) -> (r: Vec<u8>)
        ensures
            r@ == self.raw(),
    {
        self.buffer
    }
}

/// One parser read: a handshake byte, or the outcome that ends this parse
/// run (wait for more bytes, or an alert).
fn next_byte(source: &mut TlsHandshakeReader, at_eof: bool) -> (r: Result<u8, Outcome>)
    requires
        old(source).wf(),
    ensures
        final(source).wf(),
        final(source).raw() == old(source).raw(),
        final(source).hs_view() == old(source).hs_view(),
        final(source).st() == old(source).st(),
        match r {
            Ok(b) => {
                &&& old(source).pos() < old(source).hs_view().len()
                &&& b == old(source).hs_view()[old(source).pos()]
                &&& final(source).pos() == old(source).pos() + 1
            },
            Err(o) => {
                &&& old(source).pos() >= old(source).hs_view().len()
                &&& abs_outcome(o) == stalled_outcome(old(source).st(), at_eof)
                &&& final(source).pos() == old(source).pos()
            },
        },
{
    match source.read() {
        Fetched::Byte(b) => Ok(b),
        Fetched::NeedBytes => {
            if at_eof {
                Err(Outcome::Alert(TlsError::DecodeError))
            } else {
                Err(Outcome::NeedMore)
            }
        },
        Fetched::Broken(e) => Err(Outcome::Alert(e)),
    }
}

/// One parser length read, with the same outcome mapping as `next_byte`.
fn next_len(source: &mut TlsHandshakeReader, length: u8, at_eof: bool) -> (r: Result<usize, Outcome>)
    requires
        old(source).wf(),
        1 <= length <= 4,
    ensures
        final(source).wf(),
        final(source).raw() == old(source).raw(),
        final(source).hs_view() == old(source).hs_view(),
        final(source).st() == old(source).st(),
        match r {
            Ok(v) => {
                &&& old(source).pos() + length <= old(source).hs_view().len()
                &&& v == be_val(old(source).hs_view(), old(source).pos(), length as int)
                &&& final(source).pos() == old(source).pos() + length
                &&& v <= 0xffff_ffffusize
                &&& (length <= 3 ==> v <= 0xff_ffffusize)
                &&& (length <= 2 ==> v <= 0xffffusize)
                &&& (length <= 1 ==> v <= 0xffusize)
            },
            Err(o) => {
                &&& old(source).pos() + length > old(source).hs_view().len()
                &&& abs_outcome(o) == stalled_outcome(old(source).st(), at_eof)
            },
        },
{
    match source.read_length(length) {
        Ok(v) => Ok(v),
        Err(Fetched::NeedBytes) => {
            if at_eof {
                Err(Outcome::Alert(TlsError::DecodeError))
            } else {
                Err(Outcome::NeedMore)
            }
        },
        Err(Fetched::Broken(e)) => Err(Outcome::Alert(e)),
        Err(Fetched::Byte(_)) => {
            // read_length never stalls with a byte in hand
            proof {
                assert(false);
            }
            Err(Outcome::NeedMore)
        },
    }
}

/// Parses the ClientHello out of the bytes received so far and returns
/// the canonicalized SNI host_name, the alert to send, or the request for
/// more bytes. `at_eof` says the client stream has ended, which turns a
/// stalled parse into a decode error. The raw buffer is left intact for
/// replay; the parse restarts from the beginning of the stream.
#[verifier::rlimit(100)]
pub fn get_server_name(source: &mut TlsHandshakeReader, at_eof: bool) -> (r: Outcome)
    requires
        old(source).wf(),
    ensures
        final(source).wf(),
        final(source).raw() == old(source).raw(),
        abs_outcome(r) == parse_of(old(source).raw(), at_eof),
{
    source.rewind();
    let ghost hs = source.hs_view();
    let ghost st = source.st();
    let ghost goal = sp_parse(hs, st, at_eof);

    // handshake_type must announce a ClientHello
    let t = match next_byte(source, at_eof) {
        Ok(b) => b,
        Err(o) => {
            return o;
        },
    };
    if t != 1 {
        return Outcome::Alert(TlsError::UnexpectedMessage);
    }

    // the three-byte body length is the top-level budget
    let mut hello_len = match next_len(source, 3, at_eof) {
        Ok(v) => v,
        Err(o) => {
            return o;
        },
    };

    // skip legacy_version (2) and random (32)
    match source.seek(34, &mut hello_len) {
        Ok(()) => (),
        Err(e) => {
            return Outcome::Alert(e);
        },
    }
    assert(goal == match sp_take_vec(hs, 38, be_val(hs, 1, 3) - 34, 1) {
        SpecStep::Stall => stalled_outcome(st, at_eof),
        SpecStep::Fail(e) => SpecOutcome::Alert(e),
        SpecStep::Go(k1, b1) => match sp_take_vec(hs, k1, b1, 2) {
            SpecStep::Stall => stalled_outcome(st, at_eof),
            SpecStep::Fail(e) => SpecOutcome::Alert(e),
            SpecStep::Go(k2, b2) => match sp_take_vec(hs, k2, b2, 1) {
                SpecStep::Stall => stalled_outcome(st, at_eof),
                SpecStep::Fail(e) => SpecOutcome::Alert(e),
                SpecStep::Go(k3, b3) => sp_extensions(hs, st, at_eof, k3, b3),
            },
        },
    });

    // skip legacy_session_id
    match check_length(1, &mut hello_len) {
        Ok(()) => (),
        Err(e) => {
            return Outcome::Alert(e);
        },
    }
    let l1 = match next_len(source, 1, at_eof) {
        Ok(v) => v,
        Err(o) => {
            return o;
        },
    };
    match source.seek(l1, &mut hello_len) {
        Ok(()) => (),
        Err(e) => {
            return Outcome::Alert(e);
        },
    }

    // skip cipher_suites
    match check_length(2, &mut hello_len) {
        Ok(()) => (),
        Err(e) => {
            return Outcome::Alert(e);
        },
    }
    let l2 = match next_len(source, 2, at_eof) {
        Ok(v) => v,
        Err(o) => {
            return o;
        },
    };
    match source.seek(l2, &mut hello_len) {
        Ok(()) => (),
        Err(e) => {
            return Outcome::Alert(e);
        },
    }

    // skip legacy_compression_methods
    match check_length(1, &mut hello_len) {
        Ok(()) => (),
        Err(e) => {
            return Outcome::Alert(e);
        },
    }
    let l3 = match next_len(source, 1, at_eof) {
        Ok(v) => v,
        Err(o) => {
            return o;
        },
    };
    match source.seek(l3, &mut hello_len) {
        Ok(()) => (),
        Err(e) => {
            return Outcome::Alert(e);
        },
    }

    assert(goal == sp_extensions(hs, st, at_eof, source.pos(), hello_len as int));

    // a ClientHello without extensions carries no SNI
    if hello_len == 0 {
        return Outcome::Alert(TlsError::UnrecognizedName);
    }
    match check_length(2, &mut hello_len) {
        Ok(()) => (),
        Err(e) => {
            return Outcome::Alert(e);
        },
    }
    let le = match next_len(source, 2, at_eof) {
        Ok(v) => v,
        Err(o) => {
            return o;
        },
    };
    // the ClientHello must end exactly where the extensions do
    if hello_len != le {
        return Outcome::Alert(TlsError::DecodeError);
    }

    while hello_len > 0
        invariant
            source.wf(),
            source.raw() == old(source).raw(),
            source.hs_view() == hs,
            source.st() == st,
            goal == sp_parse(hs, st, at_eof),
            hello_len <= 0xff_ffff,
            goal == sp_ext_loop(hs, st, at_eof, source.pos(), hello_len as int),
        decreases hello_len,
    {
        match check_length(4, &mut hello_len) {
            Ok(()) => (),
            Err(e) => {
                return Outcome::Alert(e);
            },
        }
        let et = match next_len(source, 2, at_eof) {
            Ok(v) => v,
            Err(o) => {
                return o;
            },
        };
        let el = match next_len(source, 2, at_eof) {
            Ok(v) => v,
            Err(o) => {
                return o;
            },
        };
        if et != 0 {
            match source.seek(el, &mut hello_len) {
                Ok(()) => (),
                Err(e) => {
                    return Outcome::Alert(e);
                },
            }
            assert(goal == sp_ext_loop(hs, st, at_eof, source.pos(), hello_len as int));
            continue;
        }
        match check_length(el, &mut hello_len) {
            Ok(()) => (),
            Err(e) => {
                return Outcome::Alert(e);
            },
        }
        // the server_name extension: switch to its own budget
        let mut ext_len = el;
        match check_length(2, &mut ext_len) {
            Ok(()) => (),
            Err(e) => {
                return Outcome::Alert(e);
            },
        }
        let ll = match next_len(source, 2, at_eof) {
            Ok(v) => v,
            Err(o) => {
                return o;
            },
        };
        // the extension must end exactly where the server_name_list does
        if ext_len != ll {
            return Outcome::Alert(TlsError::DecodeError);
        }
        assert(goal == sp_sni_loop(hs, st, at_eof, source.pos(), ext_len as int));

        while ext_len > 0
            invariant
                source.wf(),
                source.raw() == old(source).raw(),
                source.hs_view() == hs,
                source.st() == st,
                ext_len <= 0xffff,
                goal == sp_parse(hs, st, at_eof),
                goal == sp_sni_loop(hs, st, at_eof, source.pos(), ext_len as int),
            decreases ext_len,
        {
            match check_length(3, &mut ext_len) {
                Ok(()) => (),
                Err(e) => {
                    return Outcome::Alert(e);
                },
            }
            let nt = match next_byte(source, at_eof) {
                Ok(b) => b,
                Err(o) => {
                    return o;
                },
            };
            let nl = match next_len(source, 2, at_eof) {
                Ok(v) => v,
                Err(o) => {
                    return o;
                },
            };
            if nt != 0 {
                match source.seek(nl, &mut ext_len) {
                    Ok(()) => (),
                    Err(e) => {
                        return Outcome::Alert(e);
                    },
                }
                assert(goal == sp_sni_loop(hs, st, at_eof, source.pos(), ext_len as int));
                continue;
            }
            match check_length(nl, &mut ext_len) {
                Ok(()) => (),
                Err(e) => {
                    return Outcome::Alert(e);
                },
            }
            // RFC 6066 caps a hostname at 254 usable octets
            if nl > 254 {
                return Outcome::Alert(TlsError::UnrecognizedName);
            }

            // the host_name itself, canonicalized byte by byte
            let ghost k1 = source.pos();
            let mut name: Vec<u8> = Vec::new();
            let mut sol = true;
            let mut i: usize = 0;
            assert(goal == sp_scan(hs, st, at_eof, k1, nl as int, 0, true, Seq::empty()));
            while i < nl
                invariant
                    source.wf(),
                    source.raw() == old(source).raw(),
                    source.hs_view() == hs,
                    source.st() == st,
                    i <= nl <= 254,
                    source.pos() == k1 + i,
                    k1 >= 0,
                    goal == sp_parse(hs, st, at_eof),
                    goal == sp_scan(hs, st, at_eof, k1, nl as int, i as int, sol, name@),
                decreases nl - i,
            {
                let b0 = match next_byte(source, at_eof) {
                    Ok(b) => b,
                    Err(o) => {
                        return o;
                    },
                };
                let b = if 65 <= b0 && b0 <= 90 {
                    b0 + 32
                } else {
                    b0
                };
                assert(b == lower(hs[k1 + i]));
                if sol && (b == 45 || b == 46) {
                    return Outcome::Alert(TlsError::UnrecognizedName);
                }
                let ok = (97 <= b && b <= 122) || (48 <= b && b <= 57) || b == 45 || b == 46;
                if !ok {
                    assert(!allowed_byte(b));
                    return Outcome::Alert(TlsError::UnrecognizedName);
                }
                sol = b == 46;
                name.push(b);
                i = i + 1;
            }
            if sol {
                // the name was empty or ended with a dot
                return Outcome::Alert(TlsError::UnrecognizedName);
            }
            return Outcome::Found(name);
        }
        // the list held no host_name; RFC 6066 forbids a second
        // server_name extension, so none is coming
        return Outcome::Alert(TlsError::UnrecognizedName);
    }
    // extensions exhausted without a server_name extension
    Outcome::Alert(TlsError::UnrecognizedName)
}

/// A length budget can fail in only one way: every underflow of a running
/// budget, wherever it arises in the ClientHello, is the decode error
/// whose alert description is 50.
pub proof fn lemma_underflow_is_decode_error(hs: Seq<u8>, k: int, b: int, n: int, e: TlsError)
    requires
        sp_take_vec(hs, k, b, n) == SpecStep::Fail(e),
    ensures
        e == TlsError::DecodeError,
        b < n || b - n < be_val(hs, k, n),
{
}

/// The parse has not decided yet: with an intact record layer and the
/// stream still open, it would ask for more bytes.
pub open spec fn wants_more(hs: Seq<u8>) -> bool {
    sp_parse(hs, FrameStatus::Incomplete, false) == SpecOutcome::NeedMore
}

proof fn lemma_scan_status(
    hs: Seq<u8>,
    st: FrameStatus,
    eof: bool,
    k: int,
    n: int,
    i: int,
    sol: bool,
    acc: Seq<u8>,
)
    ensures
        sp_scan(hs, st, eof, k, n, i, sol, acc) == if sp_scan(
            hs,
            FrameStatus::Incomplete,
            false,
            k,
            n,
            i,
            sol,
            acc,
        ) == SpecOutcome::NeedMore {
            stalled_outcome(st, eof)
        } else {
            sp_scan(hs, FrameStatus::Incomplete, false, k, n, i, sol, acc)
        },
    decreases n - i,
{
    if i >= n {
    } else if hs.len() < k + i + 1 {
    } else {
        let b = lower(hs[k + i]);
        if !(sol && (b == 45 || b == 46)) && allowed_byte(b) {
            lemma_scan_status(hs, st, eof, k, n, i + 1, b == 46, acc.push(b));
        }
    }
}

proof fn lemma_sni_status(hs: Seq<u8>, st: FrameStatus, eof: bool, k: int, e: int)
    ensures
        sp_sni_loop(hs, st, eof, k, e) == if sp_sni_loop(hs, FrameStatus::Incomplete, false, k, e)
            == SpecOutcome::NeedMore {
            stalled_outcome(st, eof)
        } else {
            sp_sni_loop(hs, FrameStatus::Incomplete, false, k, e)
        },
    decreases e,
{
    if e <= 0 || e < 3 || hs.len() < k + 3 {
    } else {
        let nt = hs[k];
        let nl = be_val(hs, k + 1, 2);
        if e - 3 < nl {
        } else if nt != 0 {
            lemma_sni_status(hs, st, eof, k + 3 + nl, e - 3 - nl);
        } else if nl > 254 {
        } else {
            lemma_scan_status(hs, st, eof, k + 3, nl as int, 0, true, Seq::empty());
        }
    }
}

proof fn lemma_ext_status(hs: Seq<u8>, st: FrameStatus, eof: bool, k: int, b: int)
    ensures
        sp_ext_loop(hs, st, eof, k, b) == if sp_ext_loop(hs, FrameStatus::Incomplete, false, k, b)
            == SpecOutcome::NeedMore {
            stalled_outcome(st, eof)
        } else {
            sp_ext_loop(hs, FrameStatus::Incomplete, false, k, b)
        },
    decreases b,
{
    if b <= 0 || b < 4 || hs.len() < k + 4 {
    } else {
        let et = be_val(hs, k, 2);
        let el = be_val(hs, k + 2, 2);
        if b - 4 < el {
        } else if et != 0 {
            lemma_ext_status(hs, st, eof, k + 4 + el, b - 4 - el);
        } else if el < 2 || hs.len() < k + 6 || el - 2 != be_val(hs, k + 4, 2) {
        } else {
            lemma_sni_status(hs, st, eof, k + 6, el - 2);
        }
    }
}

/// The record-layer status and the end-of-stream flag matter only where
/// the parse would otherwise wait for more bytes; everywhere else the
/// outcome is a function of the handshake bytes alone.
pub proof fn lemma_status_decides(hs: Seq<u8>, st: FrameStatus, eof: bool)
    ensures
        sp_parse(hs, st, eof) == if wants_more(hs) {
            stalled_outcome(st, eof)
        } else {
            sp_parse(hs, FrameStatus::Incomplete, false)
        },
{
    if hs.len() < 1 || hs[0] != 1 || hs.len() < 4 || be_val(hs, 1, 3) < 34 {
    } else {
        match sp_take_vec(hs, 38, be_val(hs, 1, 3) - 34, 1) {
            SpecStep::Stall => {},
            SpecStep::Fail(_) => {},
            SpecStep::Go(k1, b1) => match sp_take_vec(hs, k1, b1, 2) {
                SpecStep::Stall => {},
                SpecStep::Fail(_) => {},
                SpecStep::Go(k2, b2) => match sp_take_vec(hs, k2, b2, 1) {
                    SpecStep::Stall => {},
                    SpecStep::Fail(_) => {},
                    SpecStep::Go(k3, b3) => {
                        if b3 == 0 || b3 < 2 || hs.len() < k3 + 2 || b3 - 2 != be_val(hs, k3, 2) {
                        } else {
                            lemma_ext_status(hs, st, eof, k3 + 2, b3 - 2);
                        }
                    },
                },
            },
        }
    }
}

/// A non-handshake record reached mid-parse yields the
/// "unexpected_message" alert, whatever else follows.
pub proof fn lemma_wrong_type_alert(raw: Seq<u8>, at_eof: bool)
    requires
        defrag_status(raw) == FrameStatus::WrongType,
        wants_more(defrag_bytes(raw)),
    ensures
        parse_of(raw, at_eof) == SpecOutcome::Alert(TlsError::UnexpectedMessage),
{
    lemma_status_decides(defrag_bytes(raw), FrameStatus::WrongType, at_eof);
}

/// A record above 2^14 bytes reached mid-parse yields the
/// "record_overflow" alert.
pub proof fn lemma_oversize_alert(raw: Seq<u8>, at_eof: bool)
    requires
        defrag_status(raw) == FrameStatus::Oversize,
        wants_more(defrag_bytes(raw)),
    ensures
        parse_of(raw, at_eof) == SpecOutcome::Alert(TlsError::RecordOverflow),
{
    lemma_status_decides(defrag_bytes(raw), FrameStatus::Oversize, at_eof);
}

/// A zero-length handshake fragment reached mid-parse yields the
/// "decode_error" alert, as does a stream that ends mid-parse.
pub proof fn lemma_empty_fragment_alert(raw: Seq<u8>, at_eof: bool)
    requires
        defrag_status(raw) == FrameStatus::EmptyFragment,
        wants_more(defrag_bytes(raw)),
    ensures
        parse_of(raw, at_eof) == SpecOutcome::Alert(TlsError::DecodeError),
{
    lemma_status_decides(defrag_bytes(raw), FrameStatus::EmptyFragment, at_eof);
}

/// End of stream before the parse decided is a decode error.
pub proof fn lemma_eof_alert(raw: Seq<u8>)
    requires
        defrag_status(raw) == FrameStatus::Incomplete,
        wants_more(defrag_bytes(raw)),
    ensures
        parse_of(raw, true) == SpecOutcome::Alert(TlsError::DecodeError),
{
    lemma_status_decides(defrag_bytes(raw), FrameStatus::Incomplete, true);
}

/// How the ClientHello is spread over records is immaterial: any two
/// legal record framings of the same handshake byte stream parse to the
/// same outcome — the same name, or the same alert.
pub proof fn lemma_fragmentation_immaterial(raw1: Seq<u8>, raw2: Seq<u8>, h: Seq<u8>, at_eof: bool)
    requires
        is_framing(raw1, h),
        is_framing(raw2, h),
    ensures
        parse_of(raw1, at_eof) == parse_of(raw2, at_eof),
{
    lemma_framing_defrags(raw1, h);
    lemma_framing_defrags(raw2, h);
}

#[verifier::rlimit(100)]
proof fn lemma_scan_canon_rec(
    hs: Seq<u8>,
    st: FrameStatus,
    eof: bool,
    k: int,
    n: int,
    i: int,
    sol: bool,
    acc: Seq<u8>,
)
    requires
        0 <= i <= n,
        0 <= k,
        k + n <= hs.len(),
        acc == lower_seq(hs.subrange(k, k + n)).subrange(0, i),
        sol == (i == 0 || lower_seq(hs.subrange(k, k + n))[i - 1] == 46),
        forall|j: int|
            0 <= j < i ==> allowed_byte(#[trigger] lower_seq(hs.subrange(k, k + n))[j]),
        forall|j: int|
            0 <= j < i && label_boundary(lower_seq(hs.subrange(k, k + n)), j)
                ==> #[trigger] lower_seq(hs.subrange(k, k + n))[j] != 46 && lower_seq(
                hs.subrange(k, k + n),
            )[j] != 45,
    ensures
        sp_scan(hs, st, eof, k, n, i, sol, acc) == if valid_canon(
            lower_seq(hs.subrange(k, k + n)),
        ) {
            SpecOutcome::Found(lower_seq(hs.subrange(k, k + n)))
        } else {
            SpecOutcome::Alert(TlsError::UnrecognizedName)
        },
    decreases n - i,
{
    let t = lower_seq(hs.subrange(k, k + n));
    assert(t.len() == n);
    if i >= n {
        if sol {
            assert(!valid_canon(t));
        } else {
            assert(acc =~= t);
            assert(valid_canon(t));
        }
    } else {
        let b = lower(hs[k + i]);
        assert(t[i] == b);
        if sol && (b == 45 || b == 46) {
            assert(label_boundary(t, i));
            assert(!valid_canon(t));
        } else if allowed_byte(b) {
            assert(acc.push(b) =~= t.subrange(0, i + 1));
            lemma_scan_canon_rec(hs, st, eof, k, n, i + 1, b == 46, acc.push(b));
        } else {
            assert(!valid_canon(t));
        }
    }
}

/// Inside the parser, the host_name body is accepted exactly when the
/// standalone canonicalizer accepts it, and the name handed out is its
/// canonical form.
pub proof fn lemma_scan_is_canon(hs: Seq<u8>, st: FrameStatus, eof: bool, k: int, n: int)
    requires
        0 <= k,
        0 <= n,
        k + n <= hs.len(),
    ensures
        sp_scan(hs, st, eof, k, n, 0, true, Seq::empty()) == match canon(hs.subrange(k, k + n)) {
            Option::Some(c) => SpecOutcome::Found(c),
            Option::None => SpecOutcome::Alert(TlsError::UnrecognizedName),
        },
{
    assert(Seq::<u8>::empty() =~= lower_seq(hs.subrange(k, k + n)).subrange(0, 0));
    lemma_scan_canon_rec(hs, st, eof, k, n, 0, true, Seq::empty());
}

/// The accumulated name so far is clean: only allowed bytes, no label
/// starting with '.' or '-', and the boundary flag tells whether the next
/// byte would start a label.
pub open spec fn clean_prefix(acc: Seq<u8>, sol: bool) -> bool {
    &&& forall|j: int| 0 <= j < acc.len() ==> allowed_byte(#[trigger] acc[j])
    &&& forall|j: int|
        0 <= j < acc.len() && label_boundary(acc, j) ==> #[trigger] acc[j] != 46 && acc[j] != 45
    &&& sol == (acc.len() == 0 || acc[acc.len() - 1] == 46)
}

proof fn lemma_scan_found_safe(
    hs: Seq<u8>,
    st: FrameStatus,
    eof: bool,
    k: int,
    n: int,
    i: int,
    sol: bool,
    acc: Seq<u8>,
    c: Seq<u8>,
)
    requires
        sp_scan(hs, st, eof, k, n, i, sol, acc) == SpecOutcome::Found(c),
        clean_prefix(acc, sol),
        i <= n,
    ensures
        valid_canon(c),
        c.len() == acc.len() + n - i,
    decreases n - i,
{
    if i >= n {
        assert(c == acc);
        assert(!sol);
        assert(valid_canon(c));
    } else if hs.len() < k + i + 1 {
        assert(false);
    } else {
        let b = lower(hs[k + i]);
        if sol && (b == 45 || b == 46) {
            assert(false);
        } else if allowed_byte(b) {
            let acc2 = acc.push(b);
            assert forall|j: int|
                0 <= j < acc2.len() && label_boundary(acc2, j) implies #[trigger] acc2[j] != 46
                && acc2[j] != 45 by {
                if j < acc.len() {
                    assert(label_boundary(acc, j));
                } else {
                    assert(j == acc.len());
                    if label_boundary(acc2, j) {
                        assert(sol);
                    }
                }
            }
            assert(clean_prefix(acc2, b == 46));
            lemma_scan_found_safe(hs, st, eof, k, n, i + 1, b == 46, acc2, c);
        } else {
            assert(false);
        }
    }
}

proof fn lemma_sni_found_safe(hs: Seq<u8>, st: FrameStatus, eof: bool, k: int, e: int, c: Seq<u8>)
    requires
        sp_sni_loop(hs, st, eof, k, e) == SpecOutcome::Found(c),
    ensures
        valid_canon(c),
        c.len() <= 254,
    decreases e,
{
    if e <= 0 || e < 3 || hs.len() < k + 3 {
        assert(false);
    } else {
        let nt = hs[k];
        let nl = be_val(hs, k + 1, 2);
        if e - 3 < nl {
            assert(false);
        } else if nt != 0 {
            lemma_sni_found_safe(hs, st, eof, k + 3 + nl, e - 3 - nl, c);
        } else if nl > 254 {
            assert(false);
        } else {
            assert(clean_prefix(Seq::<u8>::empty(), true));
            lemma_scan_found_safe(hs, st, eof, k + 3, nl as int, 0, true, Seq::empty(), c);
        }
    }
}

proof fn lemma_ext_found_safe(hs: Seq<u8>, st: FrameStatus, eof: bool, k: int, b: int, c: Seq<u8>)
    requires
        sp_ext_loop(hs, st, eof, k, b) == SpecOutcome::Found(c),
    ensures
        valid_canon(c),
        c.len() <= 254,
    decreases b,
{
    if b <= 0 || b < 4 || hs.len() < k + 4 {
        assert(false);
    } else {
        let et = be_val(hs, k, 2);
        let el = be_val(hs, k + 2, 2);
        if b - 4 < el {
            assert(false);
        } else if et != 0 {
            lemma_ext_found_safe(hs, st, eof, k + 4 + el, b - 4 - el, c);
        } else if el < 2 || hs.len() < k + 6 || el - 2 != be_val(hs, k + 4, 2) {
            assert(false);
        } else {
            lemma_sni_found_safe(hs, st, eof, k + 6, el - 2, c);
        }
    }
}

/// Every name the parser hands out is already canonical: nonempty, at
/// most 254 bytes of [a-z0-9.-], no label starting with '.' or '-', no
/// trailing dot — so it is safe as a relative path component, and
/// canonicalizing it again changes nothing.
pub proof fn lemma_found_is_safe(raw: Seq<u8>, at_eof: bool, c: Seq<u8>)
    requires
        parse_of(raw, at_eof) == SpecOutcome::Found(c),
    ensures
        valid_canon(c),
        1 <= c.len() <= 254,
        canon(c) == Option::Some(c),
{
    let hs = defrag_bytes(raw);
    let st = defrag_status(raw);
    if hs.len() < 1 || hs[0] != 1 || hs.len() < 4 || be_val(hs, 1, 3) < 34 {
        assert(false);
    } else {
        match sp_take_vec(hs, 38, be_val(hs, 1, 3) - 34, 1) {
            SpecStep::Stall => {
                assert(false);
            },
            SpecStep::Fail(_) => {
                assert(false);
            },
            SpecStep::Go(k1, b1) => match sp_take_vec(hs, k1, b1, 2) {
                SpecStep::Stall => {
                    assert(false);
                },
                SpecStep::Fail(_) => {
                    assert(false);
                },
                SpecStep::Go(k2, b2) => match sp_take_vec(hs, k2, b2, 1) {
                    SpecStep::Stall => {
                        assert(false);
                    },
                    SpecStep::Fail(_) => {
                        assert(false);
                    },
                    SpecStep::Go(k3, b3) => {
                        if b3 == 0 || b3 < 2 || hs.len() < k3 + 2 || b3 - 2 != be_val(hs, k3, 2) {
                            assert(false);
                        } else {
                            lemma_ext_found_safe(hs, st, at_eof, k3 + 2, b3 - 2, c);
                        }
                    },
                },
            },
        }
    }
    assert forall|j: int| 0 <= j < c.len() implies #[trigger] lower_seq(c)[j] == c[j] by {
        assert(allowed_byte(c[j]));
    }
    assert(lower_seq(c) =~= c);
}

} // verus!

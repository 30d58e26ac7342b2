//! The TLS record layer, read-only: validating record headers and
//! concatenating handshake-record payloads into the handshake byte stream.
//!
//! A record is a five-byte header {content_type, legacy_version, length}
//! followed by `length` payload bytes. Every record carrying a piece of the
//! ClientHello must have content type 0x16 (handshake) and a length between
//! 1 and 2^14. The defragmenter walks the raw bytes received so far,
//! validating each complete header in turn, and yields every payload byte
//! already present, together with the reason it stopped.

use vstd::prelude::*;

verus! {

/// The TLS handshake content type.
pub open spec fn handshake_type() -> u8 {
    22
}

/// The largest payload a single record may declare: 2^14 bytes.
pub open spec fn max_record_len() -> int {
    16384
}

/// Why defragmentation stopped at the end of the bytes received so far.
#[derive(Clone, Copy, Debug, PartialEq, Eq, Structural)]
pub enum FrameStatus {
    /// The next header, or the current payload, is not fully buffered yet.
    Incomplete,
    /// The next record is not a handshake record.
    WrongType,
    /// The next record declares a zero-length fragment.
    EmptyFragment,
    /// The next record declares a length above 2^14.
    Oversize,
}

/// The declared payload length of the record whose header starts the
/// sequence.
pub open spec fn header_len(raw: Seq<u8>) -> int {
    (raw[3] as int) * 256 + (raw[4] as int)
}

/// Every handshake payload byte available in `raw`: the concatenation of
/// the payloads of the leading valid records, including the already
/// received part of a record whose payload is still arriving.
pub open spec fn defrag_bytes(raw: Seq<u8>) -> Seq<u8>
    decreases raw.len(),
{
    if raw.len() < 5 {
        Seq::empty()
    } else if raw[0] != handshake_type() {
        Seq::empty()
    } else if header_len(raw) == 0 {
        Seq::empty()
    } else if header_len(raw) > max_record_len() {
        Seq::empty()
    } else if raw.len() < 5 + header_len(raw) {
        raw.skip(5)
    } else {
        raw.subrange(5, 5 + header_len(raw)) + defrag_bytes(raw.skip(5 + header_len(raw)))
    }
}

/// Why no byte beyond `defrag_bytes(raw)` can be taken from `raw`.
pub open spec fn defrag_status(raw: Seq<u8>) -> FrameStatus
    decreases raw.len(),
{
    if raw.len() < 5 {
        FrameStatus::Incomplete
    } else if raw[0] != handshake_type() {
        FrameStatus::WrongType
    } else if header_len(raw) == 0 {
        FrameStatus::EmptyFragment
    } else if header_len(raw) > max_record_len() {
        FrameStatus::Oversize
    } else if raw.len() < 5 + header_len(raw) {
        FrameStatus::Incomplete
    } else {
        defrag_status(raw.skip(5 + header_len(raw)))
    }
}

/// `raw` is a legal record framing of the handshake stream `h`: a
/// concatenation of complete handshake records, each with a length between
/// 1 and 2^14, whose payloads concatenate to exactly `h`.
pub open spec fn is_framing(raw: Seq<u8>, h: Seq<u8>) -> bool
    decreases raw.len(),
{
    if raw.len() == 0 {
        h.len() == 0
    } else {
        &&& raw.len() >= 5
        &&& raw[0] == handshake_type()
        &&& 1 <= header_len(raw) <= max_record_len()
        &&& raw.len() >= 5 + header_len(raw)
        &&& h.len() >= header_len(raw)
        &&& raw.subrange(5, 5 + header_len(raw)) == h.subrange(0, header_len(raw))
        &&& is_framing(raw.skip(5 + header_len(raw)), h.skip(header_len(raw)))
    }
}

/// The handshake bytes available never outnumber the raw bytes received.
pub proof fn lemma_defrag_len(raw: Seq<u8>)
    ensures
        defrag_bytes(raw).len() <= raw.len(),
    decreases raw.len(),
{
    if raw.len() >= 5 && raw[0] == handshake_type() && 1 <= header_len(raw) <= max_record_len()
        && raw.len() >= 5 + header_len(raw) {
        lemma_defrag_len(raw.skip(5 + header_len(raw)));
    }
}

/// A legal framing of a handshake stream defragments to exactly that
/// stream, with nothing left over.
pub proof fn lemma_framing_defrags(raw: Seq<u8>, h: Seq<u8>)
    requires
        is_framing(raw, h),
    ensures
        defrag_bytes(raw) == h,
        defrag_status(raw) == FrameStatus::Incomplete,
    decreases raw.len(),
{
    if raw.len() == 0 {
        assert(defrag_bytes(raw) =~= h);
    } else {
        let n = header_len(raw);
        lemma_framing_defrags(raw.skip(5 + n), h.skip(n));
        assert(defrag_bytes(raw) =~= h);
    }
}

/// Walks the raw bytes received so far and returns every available
/// handshake payload byte, together with the reason the walk stopped.
pub(crate) fn defragment(raw: &Vec<u8>) -> (r: (Vec<u8>, FrameStatus))
    ensures
        r.0@ == defrag_bytes(raw@),
        r.1 == defrag_status(raw@),
{
    let mut out: Vec<u8> = Vec::new();
    let mut p: usize = 0;
    proof {
        assert(raw@.skip(0) =~= raw@);
        assert(defrag_bytes(raw@) =~= out@ + defrag_bytes(raw@.skip(0)));
    }
    loop
        invariant
            p <= raw@.len(),
            defrag_bytes(raw@) == out@ + defrag_bytes(raw@.skip(p as int)),
            defrag_status(raw@) == defrag_status(raw@.skip(p as int)),
        decreases raw@.len() - p,
    {
        let ghost rest = raw@.skip(p as int);
        assert(rest.len() == raw@.len() - p);
        if raw.len() - p < 5 {
            assert(defrag_bytes(rest) =~= Seq::<u8>::empty());
            proof {
                assert(defrag_bytes(raw@) =~= out@);
            }
            return (out, FrameStatus::Incomplete);
        }
        assert(rest[0] == raw@[p as int]);
        assert(rest[3] == raw@[p + 3]);
        assert(rest[4] == raw@[p + 4]);
        if raw[p] != 22 {
            proof {
                assert(defrag_bytes(raw@) =~= out@);
            }
            return (out, FrameStatus::WrongType);
        }
        let len: usize = (raw[p + 3] as usize) * 256 + (raw[p + 4] as usize);
        assert(len == header_len(rest));
        if len == 0 {
            proof {
                assert(defrag_bytes(raw@) =~= out@);
            }
            return (out, FrameStatus::EmptyFragment);
        }
        if len > 16384 {
            proof {
                assert(defrag_bytes(raw@) =~= out@);
            }
            return (out, FrameStatus::Oversize);
        }
        if raw.len() - p < 5 + len {
            // the current record's payload is only partly here: take what
            // there is
            let ghost out0 = out@;
            let mut q: usize = p + 5;
            proof {
                assert(out@ =~= out0 + raw@.subrange(p + 5, p + 5));
            }
            while q < raw.len()
                invariant
                    p + 5 <= q <= raw@.len(),
                    out@ == out0 + raw@.subrange(p + 5, q as int),
                decreases raw@.len() - q,
            {
                out.push(raw[q]);
                proof {
                    assert(out@ =~= out0 + raw@.subrange(p + 5, q + 1));
                }
                q = q + 1;
            }
            proof {
                assert(rest.skip(5) =~= raw@.subrange(p + 5, raw@.len() as int));
                assert(defrag_bytes(rest) == rest.skip(5));
                assert(out@ =~= out0 + defrag_bytes(rest));
                assert(defrag_bytes(raw@) =~= out@);
            }
            return (out, FrameStatus::Incomplete);
        }
        // a complete record: take its payload and move to the next header
        let ghost out0 = out@;
        let end: usize = p + 5 + len;
        let mut q: usize = p + 5;
        proof {
            assert(out@ =~= out0 + raw@.subrange(p + 5, p + 5));
        }
        while q < end
            invariant
                p + 5 <= q <= end,
                end == p + 5 + len,
                end <= raw@.len(),
                out@ == out0 + raw@.subrange(p + 5, q as int),
            decreases end - q,
        {
            out.push(raw[q]);
            proof {
                assert(out@ =~= out0 + raw@.subrange(p + 5, q + 1));
            }
            q = q + 1;
        }
        proof {
            assert(rest.subrange(5, 5 + len) =~= raw@.subrange(p + 5, p + 5 + len));
            assert(rest.skip(5 + len) =~= raw@.skip(p + 5 + len));
            assert(out@ =~= out0 + rest.subrange(5, 5 + len));
            assert(defrag_bytes(rest) == rest.subrange(5, 5 + len) + defrag_bytes(
                rest.skip(5 + len),
            ));
            assert(defrag_bytes(raw@) =~= out@ + defrag_bytes(raw@.skip(p + 5 + len)));
        }
        p = p + 5 + len;
    }
}

} // verus!

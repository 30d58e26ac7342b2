//! Backend resolution logic: classifying connect errors, building the
//! on-disk paths for a canonical name, and composing the PROXY protocol
//! v1 preamble.

use vstd::prelude::*;
use crate::alert::TlsError;

verus! {

/// Seconds the whole handshake-through-resolve phase may take before the
/// client is cut off with a "user_canceled" alert.
pub const HANDSHAKE_TIMEOUT_SECS: u64 = 10;

/// The connect-failure classes the proxy distinguishes. The first three
/// all mean "no such backend here right now" to the client.
#[derive(Clone, Copy, Debug, PartialEq, Eq, Structural)]
pub enum DialError {
    /// Directory or socket file missing.
    NotFound,
    /// The socket is not accessible to the proxy.
    PermissionDenied,
    /// The socket file exists but nothing is listening.
    ConnectionRefused,
    /// Anything else: not the client's fault.
    Other,
}

/// The alert each connect-failure class maps to.
pub open spec fn spec_classify(k: DialError) -> TlsError {
    match k {
        DialError::NotFound => TlsError::UnrecognizedName,
        DialError::PermissionDenied => TlsError::UnrecognizedName,
        DialError::ConnectionRefused => TlsError::UnrecognizedName,
        DialError::Other => TlsError::InternalError,
    }
}

/// Maps a backend connect failure to the alert the client receives:
/// missing, inaccessible or dead backends are "unrecognized_name";
/// everything else is "internal_error".
pub fn classify_dial_error(k: DialError) -> (r: TlsError)
    ensures
        r == spec_classify(k),
{
    match k {
        DialError::NotFound => TlsError::UnrecognizedName,
        DialError::PermissionDenied => TlsError::UnrecognizedName,
        DialError::ConnectionRefused => TlsError::UnrecognizedName,
        DialError::Other => TlsError::InternalError,
    }
}

/// The bytes of "/tls-socket".
pub open spec fn tls_socket_suffix() -> Seq<u8> {
    seq![47u8, 116u8, 108u8, 115u8, 45u8, 115u8, 111u8, 99u8, 107u8, 101u8, 116u8]
}

/// The bytes of "/send-proxy-v1".
pub open spec fn send_proxy_suffix() -> Seq<u8> {
    seq![47u8, 115u8, 101u8, 110u8, 100u8, 45u8, 112u8, 114u8, 111u8, 120u8, 121u8, 45u8, 118u8, 49u8]
}

fn append_name(name: &Vec<u8>) -> (r: Vec<u8>)
    ensures
        r@ == name@,
{
    let mut out: Vec<u8> = Vec::new();
    let mut i: usize = 0;
    while i < name.len()
        invariant
            i <= name@.len(),
            out@ == name@.subrange(0, i as int),
        decreases name@.len() - i,
    {
        out.push(name[i]);
        proof {
            assert(out@ =~= name@.subrange(0, i + 1));
        }
        i = i + 1;
    }
    proof {
        assert(out@ =~= name@);
    }
    out
}

/// The relative path of a backend's listening socket: `<name>/tls-socket`.
pub fn socket_path(name: &Vec<u8>) -> (r: Vec<u8>)
    ensures
        r@ == name@ + tls_socket_suffix(),
{
    let mut out = append_name(name);
    out.push(47);
    out.push(116);
    out.push(108);
    out.push(115);
    out.push(45);
    out.push(115);
    out.push(111);
    out.push(99);
    out.push(107);
    out.push(101);
    out.push(116);
    proof {
        assert(out@ =~= name@ + tls_socket_suffix());
    }
    out
}

/// The relative path of a backend's PROXY-v1 sentinel:
/// `<name>/send-proxy-v1`.
pub fn sentinel_path(name: &Vec<u8>) -> (r: Vec<u8>)
    ensures
        r@ == name@ + send_proxy_suffix(),
{
    let mut out = append_name(name);
    out.push(47);
    out.push(115);
    out.push(101);
    out.push(110);
    out.push(100);
    out.push(45);
    out.push(112);
    out.push(114);
    out.push(111);
    out.push(120);
    out.push(121);
    out.push(45);
    out.push(118);
    out.push(49);
    proof {
        assert(out@ =~= name@ + send_proxy_suffix());
    }
    out
}

/// A peer address as plain values: four octets, or eight 16-bit groups.
#[derive(Clone, Copy, Debug)]
pub enum HostAddr {
    V4([u8; 4]),
    V6([u16; 8]),
}

/// The decimal digits of a nonnegative number, most significant first.
pub open spec fn dec_digits(n: int) -> Seq<u8>
    decreases n,
{
    if n < 0 {
        Seq::empty()
    } else if n < 10 {
        seq![(48 + n) as u8]
    } else {
        dec_digits(n / 10).push((48 + n % 10) as u8)
    }
}

/// One lowercase hex digit.
pub open spec fn hex_digit(v: int) -> u8 {
    if v < 10 {
        (48 + v) as u8
    } else {
        (87 + v) as u8
    }
}

/// The lowercase hex digits of a nonnegative number, most significant
/// first, without leading zeros.
pub open spec fn hex_digits(n: int) -> Seq<u8>
    decreases n,
{
    if n < 0 {
        Seq::empty()
    } else if n < 16 {
        seq![hex_digit(n)]
    } else {
        hex_digits(n / 16).push(hex_digit(n % 16))
    }
}

/// Dotted-quad text of four octets.
pub open spec fn ipv4_text(o: Seq<u8>) -> Seq<u8> {
    dec_digits(o[0] as int) + seq![46u8] + dec_digits(o[1] as int) + seq![46u8] + dec_digits(
        o[2] as int,
    ) + seq![46u8] + dec_digits(o[3] as int)
}

/// Length of the run of zero groups starting at `i`.
pub open spec fn run_len(s: Seq<u16>, i: int) -> int
    decreases 8 - i,
{
    if i < 0 || i >= 8 || s[i] != 0 {
        0
    } else {
        1 + run_len(s, i + 1)
    }
}

/// The start of the leftmost longest run of zero groups at or after `i`
/// (8 when every group from `i` on is nonzero).
pub open spec fn best_zero_run(s: Seq<u16>, i: int) -> int
    decreases 8 - i,
{
    if i >= 8 {
        8
    } else {
        let rest = best_zero_run(s, i + 1);
        if run_len(s, i) >= run_len(s, rest) {
            i
        } else {
            rest
        }
    }
}

/// Hex groups `i..j` joined by ':'.
pub open spec fn hex_join(s: Seq<u16>, i: int, j: int) -> Seq<u8>
    decreases j - i,
{
    if i >= j {
        Seq::empty()
    } else if i + 1 == j {
        hex_digits(s[i] as int)
    } else {
        hex_digits(s[i] as int) + seq![58u8] + hex_join(s, i + 1, j)
    }
}

/// Canonical IPv6 text: lowercase hex groups joined by ':', the leftmost
/// longest run of two or more zero groups compressed to "::", and an
/// IPv4-mapped address shown with its dotted-quad tail.
pub open spec fn ipv6_text(s: Seq<u16>) -> Seq<u8> {
    if s[0] == 0 && s[1] == 0 && s[2] == 0 && s[3] == 0 && s[4] == 0 && s[5] == 0xffff {
        // "::ffff:" then the embedded IPv4 address
        seq![58u8, 58u8, 102u8, 102u8, 102u8, 102u8, 58u8] + ipv4_text(
            seq![(s[6] as int / 256) as u8, (s[6] as int % 256) as u8, (s[7] as int / 256) as u8, (
                s[7] as int % 256) as u8],
        )
    } else {
        let st = best_zero_run(s, 0);
        if run_len(s, st) <= 1 {
            hex_join(s, 0, 8)
        } else {
            hex_join(s, 0, st) + seq![58u8, 58u8] + hex_join(s, st + run_len(s, st), 8)
        }
    }
}

/// The textual form of an address.
pub open spec fn addr_text(a: HostAddr) -> Seq<u8> {
    match a {
        HostAddr::V4(o) => ipv4_text(o@),
        HostAddr::V6(s) => ipv6_text(s@),
    }
}

/// "TCP4" or "TCP6", by the address family.
pub open spec fn proto_text(a: HostAddr) -> Seq<u8> {
    match a {
        HostAddr::V4(_) => seq![84u8, 67u8, 80u8, 52u8],
        HostAddr::V6(_) => seq![84u8, 67u8, 80u8, 54u8],
    }
}

/// The exact PROXY v1 preamble:
/// `PROXY <TCP4|TCP6> <src-ip> <dst-ip> <src-port> <dst-port>\r\n`,
/// with the protocol chosen by the client's address family, the client
/// first and the proxy's local endpoint second.
pub open spec fn spec_proxy_header(
    remote: HostAddr,
    remote_port: u16,
    local: HostAddr,
    local_port: u16,
) -> Seq<u8> {
    seq![80u8, 82u8, 79u8, 88u8, 89u8, 32u8] + proto_text(remote) + seq![32u8] + addr_text(remote)
        + seq![32u8] + addr_text(local) + seq![32u8] + dec_digits(remote_port as int) + seq![32u8]
        + dec_digits(local_port as int) + seq![13u8, 10u8]
}

/// Appends the decimal digits of `n`.
fn push_dec(out: &mut Vec<u8>, n: u16)
    ensures
        final(out)@ == old(out)@ + dec_digits(n as int),
    decreases n,
{
    let ghost out0 = out@;
    if n >= 10 {
        push_dec(out, n / 10);
        out.push(48 + (n % 10) as u8);
        proof {
            assert(out@ =~= out0 + dec_digits(n as int));
        }
    } else {
        out.push(48 + n as u8);
        proof {
            assert(out@ =~= out0 + dec_digits(n as int));
        }
    }
}

/// Appends the lowercase hex digits of `n`, without leading zeros.
fn push_hex(out: &mut Vec<u8>, n: u16)
    ensures
        final(out)@ == old(out)@ + hex_digits(n as int),
    decreases n,
{
    let ghost out0 = out@;
    if n >= 16 {
        push_hex(out, n / 16);
        let d = (n % 16) as u8;
        out.push(if d < 10 {
            48 + d
        } else {
            87 + d
        });
        proof {
            assert(out@ =~= out0 + hex_digits(n as int));
        }
    } else {
        let d = n as u8;
        out.push(if d < 10 {
            48 + d
        } else {
            87 + d
        });
        proof {
            assert(out@ =~= out0 + hex_digits(n as int));
        }
    }
}

/// Appends the dotted-quad text of four octets.
fn push_ipv4(out: &mut Vec<u8>, o: &[u8; 4])
    ensures
        final(out)@ == old(out)@ + ipv4_text(o@),
{
    let ghost out0 = out@;
    push_dec(out, o[0] as u16);
    out.push(46);
    push_dec(out, o[1] as u16);
    out.push(46);
    push_dec(out, o[2] as u16);
    out.push(46);
    push_dec(out, o[3] as u16);
    proof {
        assert(out@ =~= out0 + ipv4_text(o@));
    }
}

fn run_len_at(s: &[u16; 8], i: usize) -> (r: usize)
    requires
        i <= 8,
    ensures
        r == run_len(s@, i as int),
        i + r <= 8,
    decreases 8 - i,
{
    if i >= 8 || s[i] != 0 {
        0
    } else {
        1 + run_len_at(s, i + 1)
    }
}

fn best_zero_run_at(s: &[u16; 8], i: usize) -> (r: usize)
    requires
        i <= 8,
    ensures
        r == best_zero_run(s@, i as int),
        i <= r <= 8,
    decreases 8 - i,
{
    if i >= 8 {
        8
    } else {
        let rest = best_zero_run_at(s, i + 1);
        let here = run_len_at(s, i);
        let there = run_len_at(s, rest);
        if here >= there {
            i
        } else {
            rest
        }
    }
}

fn push_hex_join(out: &mut Vec<u8>, s: &[u16; 8], i: usize, j: usize)
    requires
        i <= j <= 8,
    ensures
        final(out)@ == old(out)@ + hex_join(s@, i as int, j as int),
    decreases j - i,
{
    let ghost out0 = out@;
    if i >= j {
        proof {
            assert(out@ =~= out0 + hex_join(s@, i as int, j as int));
        }
    } else if i + 1 == j {
        push_hex(out, s[i]);
        proof {
            assert(out@ =~= out0 + hex_join(s@, i as int, j as int));
        }
    } else {
        push_hex(out, s[i]);
        out.push(58);
        push_hex_join(out, s, i + 1, j);
        proof {
            assert(out@ =~= out0 + hex_join(s@, i as int, j as int));
        }
    }
}

/// Appends the canonical IPv6 text of eight groups.
fn push_ipv6(out: &mut Vec<u8>, s: &[u16; 8])
    ensures
        final(out)@ == old(out)@ + ipv6_text(s@),
{
    let ghost out0 = out@;
    if s[0] == 0 && s[1] == 0 && s[2] == 0 && s[3] == 0 && s[4] == 0 && s[5] == 0xffff {
        out.push(58);
        out.push(58);
        out.push(102);
        out.push(102);
        out.push(102);
        out.push(102);
        out.push(58);
        let o: [u8; 4] = [(s[6] / 256) as u8, (s[6] % 256) as u8, (s[7] / 256) as u8, (s[7]
            % 256) as u8];
        push_ipv4(out, &o);
        proof {
            assert(o@ =~= seq![(s@[6] as int / 256) as u8, (s@[6] as int % 256) as u8, (s@[7] as int
                / 256) as u8, (s@[7] as int % 256) as u8]);
            assert(out@ =~= out0 + ipv6_text(s@));
        }
    } else {
        let st = best_zero_run_at(s, 0);
        let rl = run_len_at(s, st);
        if rl <= 1 {
            push_hex_join(out, s, 0, 8);
            proof {
                assert(out@ =~= out0 + ipv6_text(s@));
            }
        } else {
            push_hex_join(out, s, 0, st);
            out.push(58);
            out.push(58);
            push_hex_join(out, s, st + rl, 8);
            proof {
                assert(out@ =~= out0 + ipv6_text(s@));
            }
        }
    }
}

/// Appends the textual form of an address.
fn push_addr(out: &mut Vec<u8>, a: &HostAddr)
    ensures
        final(out)@ == old(out)@ + addr_text(*a),
{
    match a {
        HostAddr::V4(o) => push_ipv4(out, o),
        HostAddr::V6(s) => push_ipv6(out, s),
    }
}

/// Composes the PROXY v1 preamble to send to a backend that asked for
/// one: the client's address and port first, then the proxy's local
/// endpoint, finished with CRLF.
pub fn proxy_header(remote: &HostAddr, remote_port: u16, local: &HostAddr, local_port: u16) -> (r:
    Vec<u8>)
    ensures
        r@ == spec_proxy_header(*remote, remote_port, *local, local_port),
{
    let mut out: Vec<u8> = Vec::new();
    out.push(80);
    out.push(82);
    out.push(79);
    out.push(88);
    out.push(89);
    out.push(32);
    match remote {
        HostAddr::V4(_) => {
            out.push(84);
            out.push(67);
            out.push(80);
            out.push(52);
        },
        HostAddr::V6(_) => {
            out.push(84);
            out.push(67);
            out.push(80);
            out.push(54);
        },
    }
    out.push(32);
    push_addr(&mut out, remote);
    out.push(32);
    push_addr(&mut out, local);
    out.push(32);
    push_dec(&mut out, remote_port);
    out.push(32);
    push_dec(&mut out, local_port);
    out.push(13);
    out.push(10);
    proof {
        assert(out@ =~= spec_proxy_header(*remote, remote_port, *local, local_port));
    }
    out
}

} // verus!

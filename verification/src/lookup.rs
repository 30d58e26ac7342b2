//! The hostname helper: turns a possibly-Unicode hostname into the exact
//! form the proxy looks up on disk — IDNA ASCII with a single trailing
//! dot stripped — and, for deployments that hash their directory names,
//! the base64url-no-padding form of the name's 32-byte digest.

use vstd::prelude::*;

verus! {

/// What IDNA-to-ASCII (strict profile) yields for a hostname, when it
/// accepts it. A function of the characters alone.
pub uninterp spec fn idna_ascii(host: Seq<char>) -> Option<Seq<u8>>;

/// The 32-byte digest the hashed-lookup mode uses. A function of the
/// input bytes alone.
pub uninterp spec fn blake2s_of(data: Seq<u8>) -> Seq<u8>;

/// One base64url digit: A-Z, a-z, 0-9, '-', '_'.
pub open spec fn b64url_digit(v: int) -> u8 {
    if v < 26 {
        (65 + v) as u8
    } else if v < 52 {
        (97 + v - 26) as u8
    } else if v < 62 {
        (48 + v - 52) as u8
    } else if v == 62 {
        45u8
    } else {
        95u8
    }
}

/// base64url without padding: each group of three bytes becomes four
/// digits of six bits each; a final group of one or two bytes becomes
/// two or three digits.
pub open spec fn b64url_encode(s: Seq<u8>) -> Seq<u8>
    decreases s.len(),
{
    if s.len() == 0 {
        Seq::empty()
    } else if s.len() == 1 {
        let a = s[0] as int;
        seq![b64url_digit(a / 4), b64url_digit((a % 4) * 16)]
    } else if s.len() == 2 {
        let a = s[0] as int;
        let b = s[1] as int;
        seq![b64url_digit(a / 4), b64url_digit((a % 4) * 16 + b / 16), b64url_digit((b % 16) * 4)]
    } else {
        let a = s[0] as int;
        let b = s[1] as int;
        let c = s[2] as int;
        seq![b64url_digit(a / 4), b64url_digit((a % 4) * 16 + b / 16), b64url_digit(
            (b % 16) * 4 + c / 64,
        ), b64url_digit(c % 64)] + b64url_encode(s.skip(3))
    }
}

/// The input without its final '.', if it has one.
pub open spec fn strip_trailing_dot(s: Seq<u8>) -> Seq<u8> {
    if s.len() > 0 && s[s.len() - 1] == 46 {
        s.subrange(0, s.len() - 1)
    } else {
        s
    }
}

/// Relies on idna's domain_to_ascii_strict: IDNA-to-ASCII under the
/// strict profile, a function of the hostname's characters alone;
/// rejected hostnames become `None`.
#[verifier::external_body]
fn idna_to_ascii_raw(host: &str) -> (r: Option<Vec<u8>>)
    ensures
        match r {
            Some(v) => idna_ascii(host@) == Some(v@),
            None => idna_ascii(host@) is None,
        },
{
    match idna::domain_to_ascii_strict(host) {
        Ok(s) => Some(s.into_bytes()),
        Err(_) => None,
    }
}

/// Relies on blake2's Blake2s256: a 32-byte digest of the input bytes
/// alone.
#[verifier::external_body]
fn blake2s_digest(data: &Vec<u8>) -> (r: Vec<u8>)
    ensures
        r@ == blake2s_of(data@),
        r@.len() == 32,
{
    let h = <blake2::Blake2s256 as blake2::Digest>::digest(data.as_slice());
    h.as_slice().to_vec()
}

/// Relies on base64's URL_SAFE_NO_PAD engine: the base64url alphabet,
/// no padding.
#[verifier::external_body]
fn b64url(data: &Vec<u8>) -> (r: Vec<u8>)
    ensures
        r@ == b64url_encode(data@),
{
    let engine = &base64::engine::general_purpose::URL_SAFE_NO_PAD;
    base64::Engine::encode(engine, data.as_slice()).into_bytes()
}

/// The canonical ASCII form of a hostname as the proxy expects to find
/// it on disk: IDNA ASCII (strict), with a single trailing dot stripped.
/// `None` when IDNA rejects the hostname.
pub fn canonical_hostname(host: &str) -> (r: Option<Vec<u8>>)
    ensures
        match r {
            Some(v) => idna_ascii(host@) matches Some(a) && v@ == strip_trailing_dot(a),
            None => idna_ascii(host@) is None,
        },
{
    match idna_to_ascii_raw(host) {
        None => None,
        Some(mut v) => {
            let n = v.len();
            if n > 0 && v[n - 1] == 46 {
                v.pop();
                proof {
                    assert(v@ =~= strip_trailing_dot(idna_ascii(host@)->Some_0));
                }
            }
            Some(v)
        },
    }
}

/// The hashed lookup form: base64url, without padding, of the 32-byte
/// digest of the ASCII name. When a deployment names its backend
/// directories this way, the proxy applies the same transform before the
/// path lookup.
pub fn hashed_name(ascii: &Vec<u8>) -> (r: Vec<u8>)
    ensures
        r@ == b64url_encode(blake2s_of(ascii@)),
{
    let h = blake2s_digest(ascii);
    b64url(&h)
}

} // verus!

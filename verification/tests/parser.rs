use sniproxy::alert::TlsError;
use sniproxy::hello::{get_server_name, Outcome, TlsHandshakeReader};

fn sni_extension(name: &[u8]) -> Vec<u8> {
    let nl = name.len() as u16;
    let list_len = 3 + nl;
    let ext_len = 2 + list_len;
    let mut v = vec![0u8, 0u8];
    v.extend_from_slice(&ext_len.to_be_bytes());
    v.extend_from_slice(&list_len.to_be_bytes());
    v.push(0);
    v.extend_from_slice(&nl.to_be_bytes());
    v.extend_from_slice(name);
    v
}

fn client_hello_body(exts: &[u8]) -> Vec<u8> {
    let mut b = vec![3u8, 3u8];
    b.extend_from_slice(&[0u8; 32]);
    b.push(0);
    b.extend_from_slice(&[0, 2, 0x13, 0x01]);
    b.extend_from_slice(&[1, 0]);
    b.extend_from_slice(&(exts.len() as u16).to_be_bytes());
    b.extend_from_slice(exts);
    b
}

fn handshake_message(body: &[u8]) -> Vec<u8> {
    let mut m = vec![1u8];
    let l = body.len() as u32;
    m.push((l >> 16) as u8);
    m.push((l >> 8) as u8);
    m.push(l as u8);
    m.extend_from_slice(body);
    m
}

fn one_record(payload: &[u8]) -> Vec<u8> {
    let mut r = vec![0x16u8, 3, 1];
    r.extend_from_slice(&(payload.len() as u16).to_be_bytes());
    r.extend_from_slice(payload);
    r
}

fn fragmented(hs: &[u8], sizes: &[usize]) -> Vec<u8> {
    let mut out = Vec::new();
    let mut at = 0;
    for &s in sizes {
        out.extend_from_slice(&one_record(&hs[at..at + s]));
        at += s;
    }
    if at < hs.len() {
        out.extend_from_slice(&one_record(&hs[at..]));
    }
    out
}

fn sni_hello(name: &[u8]) -> Vec<u8> {
    handshake_message(&client_hello_body(&sni_extension(name)))
}

fn parse(raw: &[u8], at_eof: bool) -> Outcome {
    let mut rd = TlsHandshakeReader::new();
    assert!(rd.extend(raw));
    get_server_name(&mut rd, at_eof)
}

fn expect_name(o: Outcome, want: &[u8]) {
    match o {
        Outcome::Found(v) => assert_eq!(v, want.to_vec()),
        other => panic!("expected a name, got {:?}", other),
    }
}

fn expect_alert(o: Outcome, want: TlsError) {
    match o {
        Outcome::Alert(e) => assert_eq!(e, want),
        other => panic!("expected an alert, got {:?}", other),
    }
}

#[test]
fn happy_path_extracts_name() {
    let raw = one_record(&sni_hello(b"example.test"));
    expect_name(parse(&raw, false), b"example.test");
}

#[test]
fn happy_path_replays_whole_buffer() {
    let raw = one_record(&sni_hello(b"example.test"));
    let mut rd = TlsHandshakeReader::new();
    assert!(rd.extend(&raw));
    match get_server_name(&mut rd, false) {
        Outcome::Found(_) => {}
        other => panic!("expected a name, got {:?}", other),
    }
    assert_eq!(rd.into_buffer(), raw);
}

const LONG_NAME: &[u8] = b"fragmentation-coverage.very-long-subdomain-label.example.test";

#[test]
fn fragmented_three_records_same_name() {
    let hs = sni_hello(LONG_NAME);
    assert!(hs.len() > 101);
    let raw = fragmented(&hs, &[1, 100]);
    expect_name(parse(&raw, false), LONG_NAME);
}

#[test]
fn fragmented_same_as_one_record() {
    let hs = sni_hello(LONG_NAME);
    let whole = one_record(&hs[..16000.min(hs.len())]);
    let split = fragmented(&hs, &[1, 100]);
    match (parse(&whole, false), parse(&split, false)) {
        (Outcome::Found(a), Outcome::Found(b)) => assert_eq!(a, b),
        other => panic!("expected two names, got {:?}", other),
    }
}

#[test]
fn fragmented_replay_is_byte_exact() {
    let hs = sni_hello(LONG_NAME);
    let raw = fragmented(&hs, &[1, 100]);
    let mut rd = TlsHandshakeReader::new();
    assert!(rd.extend(&raw));
    match get_server_name(&mut rd, false) {
        Outcome::Found(v) => assert_eq!(v, LONG_NAME.to_vec()),
        other => panic!("expected a name, got {:?}", other),
    }
    assert_eq!(rd.into_buffer(), raw);
}

#[test]
fn uppercase_name_is_folded() {
    let raw = one_record(&sni_hello(b"ExAmple.TEST"));
    expect_name(parse(&raw, false), b"example.test");
}

#[test]
fn traversal_name_rejected() {
    let raw = one_record(&sni_hello(b".."));
    expect_alert(parse(&raw, false), TlsError::UnrecognizedName);
}

#[test]
fn bad_byte_in_name_rejected() {
    let raw = one_record(&sni_hello(b"a/b"));
    expect_alert(parse(&raw, false), TlsError::UnrecognizedName);
}

#[test]
fn empty_name_rejected() {
    let raw = one_record(&sni_hello(b""));
    expect_alert(parse(&raw, false), TlsError::UnrecognizedName);
}

#[test]
fn trailing_dot_name_rejected() {
    let raw = one_record(&sni_hello(b"example.test."));
    expect_alert(parse(&raw, false), TlsError::UnrecognizedName);
}

#[test]
fn oversize_hostname_rejected() {
    let name = vec![b'a'; 255];
    let raw = one_record(&sni_hello(&name));
    expect_alert(parse(&raw, false), TlsError::UnrecognizedName);
}

#[test]
fn longest_allowed_hostname_accepted() {
    let name = vec![b'a'; 254];
    let raw = one_record(&sni_hello(&name));
    expect_name(parse(&raw, false), &name);
}

#[test]
fn non_handshake_first_record() {
    let hs = sni_hello(b"example.test");
    let mut raw = one_record(&hs);
    raw[0] = 0x17;
    expect_alert(parse(&raw, false), TlsError::UnexpectedMessage);
}

#[test]
fn non_handshake_record_mid_hello() {
    let hs = sni_hello(b"example.test");
    let mut raw = one_record(&hs[..40]);
    let mut second = one_record(&hs[40..]);
    second[0] = 0x17;
    raw.extend_from_slice(&second);
    expect_alert(parse(&raw, false), TlsError::UnexpectedMessage);
}

#[test]
fn oversize_record_rejected() {
    let hs = sni_hello(b"example.test");
    let mut raw = one_record(&hs);
    raw[3] = 0x40;
    raw[4] = 0x01;
    expect_alert(parse(&raw, false), TlsError::RecordOverflow);
}

#[test]
fn zero_length_record_rejected() {
    let hs = sni_hello(b"example.test");
    let mut raw = one_record(&hs[..40]);
    raw.extend_from_slice(&one_record(&[]));
    raw.extend_from_slice(&one_record(&hs[40..]));
    expect_alert(parse(&raw, false), TlsError::DecodeError);
}

#[test]
fn wrong_handshake_type_rejected() {
    let mut hs = sni_hello(b"example.test");
    hs[0] = 2;
    let raw = one_record(&hs);
    expect_alert(parse(&raw, false), TlsError::UnexpectedMessage);
}

#[test]
fn session_id_budget_underflow() {
    // a session id longer than the whole remaining body budget
    let mut body = client_hello_body(&sni_extension(b"example.test"));
    body[34] = 0xff;
    let raw = one_record(&handshake_message(&body));
    expect_alert(parse(&raw, false), TlsError::DecodeError);
}

#[test]
fn extensions_length_mismatch() {
    let mut body = client_hello_body(&sni_extension(b"example.test"));
    let n = body.len();
    // extensions length field sits right after the compression methods
    let ext_len_at = n - 2 - sni_extension(b"example.test").len();
    body[ext_len_at] = 0;
    body[ext_len_at + 1] = 5;
    let raw = one_record(&handshake_message(&body));
    expect_alert(parse(&raw, false), TlsError::DecodeError);
}

#[test]
fn no_extensions_block() {
    let mut b = vec![3u8, 3u8];
    b.extend_from_slice(&[0u8; 32]);
    b.push(0);
    b.extend_from_slice(&[0, 2, 0x13, 0x01]);
    b.extend_from_slice(&[1, 0]);
    let raw = one_record(&handshake_message(&b));
    expect_alert(parse(&raw, false), TlsError::UnrecognizedName);
}

#[test]
fn other_extensions_skipped() {
    // an unknown extension first, then server_name
    let mut exts = vec![0x00u8, 0x2b, 0x00, 0x02, 0x03, 0x04];
    exts.extend_from_slice(&sni_extension(b"example.test"));
    let raw = one_record(&handshake_message(&client_hello_body(&exts)));
    expect_name(parse(&raw, false), b"example.test");
}

#[test]
fn no_server_name_extension() {
    let exts = vec![0x00u8, 0x2b, 0x00, 0x02, 0x03, 0x04];
    let raw = one_record(&handshake_message(&client_hello_body(&exts)));
    expect_alert(parse(&raw, false), TlsError::UnrecognizedName);
}

#[test]
fn non_host_name_entry_skipped() {
    let name = b"example.test";
    let nl = name.len() as u16;
    let list_len = 3 + 3 + nl; // one bogus entry of length 0, then the real one
    let ext_len = 2 + list_len;
    let mut v = vec![0u8, 0u8];
    v.extend_from_slice(&ext_len.to_be_bytes());
    v.extend_from_slice(&list_len.to_be_bytes());
    v.push(9);
    v.extend_from_slice(&0u16.to_be_bytes());
    v.push(0);
    v.extend_from_slice(&nl.to_be_bytes());
    v.extend_from_slice(name);
    let raw = one_record(&handshake_message(&client_hello_body(&v)));
    expect_name(parse(&raw, false), b"example.test");
}

#[test]
fn truncated_stream_needs_more() {
    let raw = one_record(&sni_hello(b"example.test"));
    let cut = &raw[..raw.len() - 4];
    assert!(matches!(parse(cut, false), Outcome::NeedMore));
}

#[test]
fn truncated_stream_at_eof_is_decode_error() {
    let raw = one_record(&sni_hello(b"example.test"));
    let cut = &raw[..raw.len() - 4];
    expect_alert(parse(cut, true), TlsError::DecodeError);
}

#[test]
fn parse_restarts_after_more_bytes() {
    let raw = one_record(&sni_hello(b"example.test"));
    let mut rd = TlsHandshakeReader::new();
    assert!(rd.extend(&raw[..10]));
    assert!(matches!(get_server_name(&mut rd, false), Outcome::NeedMore));
    assert!(rd.extend(&raw[10..]));
    match get_server_name(&mut rd, false) {
        Outcome::Found(v) => assert_eq!(v, b"example.test".to_vec()),
        other => panic!("expected a name, got {:?}", other),
    }
    assert_eq!(rd.into_buffer(), raw);
}

#[test]
fn lookahead_is_retained_for_replay() {
    // the client sent application data right behind the ClientHello
    let mut raw = one_record(&sni_hello(b"example.test"));
    raw.extend_from_slice(&[0x17, 0x03, 0x03, 0x00, 0x01, 0xff]);
    let mut rd = TlsHandshakeReader::new();
    assert!(rd.extend(&raw));
    match get_server_name(&mut rd, false) {
        Outcome::Found(v) => assert_eq!(v, b"example.test".to_vec()),
        other => panic!("expected a name, got {:?}", other),
    }
    assert_eq!(rd.into_buffer(), raw);
}

use sniproxy::alert::TlsError;
use sniproxy::backend::{
    classify_dial_error, proxy_header, sentinel_path, socket_path, DialError, HostAddr,
};

#[test]
fn proxy_v1_tcp4_exact() {
    let h = proxy_header(
        &HostAddr::V4([203, 0, 113, 7]),
        51000,
        &HostAddr::V4([198, 51, 100, 1]),
        443,
    );
    assert_eq!(h, b"PROXY TCP4 203.0.113.7 198.51.100.1 51000 443\r\n".to_vec());
}

#[test]
fn proxy_v1_tcp6_exact() {
    let h = proxy_header(
        &HostAddr::V6([0x2001, 0xdb8, 0, 0, 0, 0, 0, 1]),
        51000,
        &HostAddr::V6([0xfe80, 0, 0, 0, 0x1234, 0, 0, 0xabcd]),
        443,
    );
    assert_eq!(
        h,
        b"PROXY TCP6 2001:db8::1 fe80::1234:0:0:abcd 51000 443\r\n".to_vec()
    );
}

#[test]
fn ipv6_all_zero_compresses() {
    let h = proxy_header(
        &HostAddr::V6([0, 0, 0, 0, 0, 0, 0, 0]),
        1,
        &HostAddr::V6([0, 0, 0, 0, 0, 0, 0, 1]),
        2,
    );
    assert_eq!(h, b"PROXY TCP6 :: ::1 1 2\r\n".to_vec());
}

#[test]
fn ipv6_v4_mapped_shows_dotted_quad() {
    let h = proxy_header(
        &HostAddr::V6([0, 0, 0, 0, 0, 0xffff, 0x0102, 0x0304]),
        7,
        &HostAddr::V6([0x1234, 0x5678, 0x9abc, 0xdef0, 1, 2, 3, 4]),
        8,
    );
    assert_eq!(
        h,
        b"PROXY TCP6 ::ffff:1.2.3.4 1234:5678:9abc:def0:1:2:3:4 7 8\r\n".to_vec()
    );
}

#[test]
fn ipv6_single_zero_not_compressed() {
    let h = proxy_header(
        &HostAddr::V6([1, 0, 2, 3, 4, 5, 6, 7]),
        9,
        &HostAddr::V4([127, 0, 0, 1]),
        10,
    );
    assert_eq!(h, b"PROXY TCP6 1:0:2:3:4:5:6:7 127.0.0.1 9 10\r\n".to_vec());
}

#[test]
fn ipv6_leftmost_longest_run_wins() {
    let h = proxy_header(
        &HostAddr::V6([1, 0, 0, 2, 0, 0, 0, 3]),
        9,
        &HostAddr::V6([1, 0, 0, 2, 3, 0, 0, 4]),
        10,
    );
    assert_eq!(h, b"PROXY TCP6 1:0:0:2::3 1::2:3:0:0:4 9 10\r\n".to_vec());
}

#[test]
fn dial_errors_map_to_alerts() {
    assert_eq!(classify_dial_error(DialError::NotFound), TlsError::UnrecognizedName);
    assert_eq!(
        classify_dial_error(DialError::PermissionDenied),
        TlsError::UnrecognizedName
    );
    assert_eq!(
        classify_dial_error(DialError::ConnectionRefused),
        TlsError::UnrecognizedName
    );
    assert_eq!(classify_dial_error(DialError::Other), TlsError::InternalError);
}

#[test]
fn backend_paths() {
    assert_eq!(
        socket_path(&b"example.test".to_vec()),
        b"example.test/tls-socket".to_vec()
    );
    assert_eq!(
        sentinel_path(&b"example.test".to_vec()),
        b"example.test/send-proxy-v1".to_vec()
    );
}

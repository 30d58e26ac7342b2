use sniproxy::alert::TlsError;
use sniproxy::canon::canonicalize;

#[test]
fn plain_name_is_kept() {
    assert_eq!(canonicalize(b"example.test"), Some(b"example.test".to_vec()));
}

#[test]
fn uppercase_is_folded() {
    assert_eq!(canonicalize(b"ExAmple.TEST"), Some(b"example.test".to_vec()));
}

#[test]
fn digits_and_dashes_allowed() {
    assert_eq!(canonicalize(b"a-1.b2"), Some(b"a-1.b2".to_vec()));
}

#[test]
fn trailing_dash_is_allowed() {
    assert_eq!(canonicalize(b"a-"), Some(b"a-".to_vec()));
}

#[test]
fn empty_bytes_rejected() {
    assert_eq!(canonicalize(b""), None);
}

#[test]
fn single_dot_rejected() {
    assert_eq!(canonicalize(b"."), None);
}

#[test]
fn dot_dot_rejected() {
    assert_eq!(canonicalize(b".."), None);
}

#[test]
fn inner_dot_dot_rejected() {
    assert_eq!(canonicalize(b"a..b"), None);
}

#[test]
fn leading_dot_rejected() {
    assert_eq!(canonicalize(b".a"), None);
}

#[test]
fn trailing_dot_rejected() {
    assert_eq!(canonicalize(b"a."), None);
}

#[test]
fn leading_dash_rejected() {
    assert_eq!(canonicalize(b"-a"), None);
}

#[test]
fn dash_after_dot_rejected() {
    assert_eq!(canonicalize(b"a.-b"), None);
}

#[test]
fn slash_rejected() {
    assert_eq!(canonicalize(b"a/b"), None);
}

#[test]
fn non_ascii_rejected() {
    assert_eq!(canonicalize(&[0xc3, 0xa9]), None);
}

#[test]
fn underscore_rejected() {
    assert_eq!(canonicalize(b"a_b"), None);
}

#[test]
fn canonicalization_is_idempotent() {
    let once = canonicalize(b"MiXed-CASE.example").unwrap();
    let twice = canonicalize(&once).unwrap();
    assert_eq!(once, twice);
}

#[test]
fn alert_bytes_unrecognized_name() {
    assert_eq!(
        TlsError::UnrecognizedName.alert_record(),
        vec![0x15, 0x03, 0x03, 0x00, 0x02, 0x02, 0x70]
    );
}

#[test]
fn alert_bytes_user_canceled() {
    assert_eq!(
        TlsError::UserCanceled.alert_record(),
        vec![0x15, 0x03, 0x03, 0x00, 0x02, 0x02, 0x5a]
    );
}

#[test]
fn alert_descriptions() {
    assert_eq!(TlsError::UnexpectedMessage.description(), 10);
    assert_eq!(TlsError::RecordOverflow.description(), 22);
    assert_eq!(TlsError::DecodeError.description(), 50);
    assert_eq!(TlsError::InternalError.description(), 80);
    assert_eq!(TlsError::UserCanceled.description(), 90);
    assert_eq!(TlsError::UnrecognizedName.description(), 112);
}

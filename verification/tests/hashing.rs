use sniproxy::lookup::{canonical_hostname, hashed_name};

#[test]
fn ascii_hostname_passes_through() {
    assert_eq!(
        canonical_hostname("example.test"),
        Some(b"example.test".to_vec())
    );
}

#[test]
fn uppercase_hostname_is_lowered() {
    assert_eq!(
        canonical_hostname("EXAMPLE.test"),
        Some(b"example.test".to_vec())
    );
}

#[test]
fn unicode_hostname_becomes_punycode() {
    assert_eq!(
        canonical_hostname("bücher.example"),
        Some(b"xn--bcher-kva.example".to_vec())
    );
}

#[test]
fn empty_hostname_rejected() {
    assert_eq!(canonical_hostname(""), None);
}

#[test]
fn hashed_name_is_43_base64url_bytes() {
    let h = hashed_name(&b"example.test".to_vec());
    assert_eq!(h.len(), 43);
    for &b in &h {
        assert!(
            b.is_ascii_alphanumeric() || b == b'-' || b == b'_',
            "unexpected byte {}",
            b
        );
    }
}

#[test]
fn hashed_name_differs_from_input() {
    let h = hashed_name(&b"example.test".to_vec());
    assert_ne!(h, b"example.test".to_vec());
}

#[test]
fn hashed_name_is_deterministic_and_injective_looking() {
    let a1 = hashed_name(&b"example.test".to_vec());
    let a2 = hashed_name(&b"example.test".to_vec());
    let b = hashed_name(&b"example.tesu".to_vec());
    assert_eq!(a1, a2);
    assert_ne!(a1, b);
}

use ocid_core::error::Error;
use ocid_core::identity::{did_key, is_hex_publisher, parse_publisher, verify, Identity, PublisherId};

#[test]
fn did_roundtrip() {
    let id = Identity::generate();
    let did = id.did();
    assert!(did.starts_with("did:key:z6Mk"));
    assert_eq!(parse_publisher(&did).unwrap(), id.id());
    assert_eq!(parse_publisher(&id.id().to_string()).unwrap(), id.id());
    assert!(is_hex_publisher(&id.id().to_string()));
}

#[test]
fn sign_verify() {
    let id = Identity::generate();
    let sig = id.sign(b"hello");
    verify(&id.id(), b"hello", &sig).unwrap();
    assert!(verify(&id.id(), b"hellp", &sig).is_err());
}

#[test]
fn fixed_secret_gives_fixed_key() {
    // RFC 8032 test vector 1
    let secret = [
        0x9d, 0x61, 0xb1, 0x9d, 0xef, 0xfd, 0x5a, 0x60, 0xba, 0x84, 0x4a, 0xf4, 0x92, 0xec, 0x2c,
        0xc4, 0x44, 0x49, 0xc5, 0x69, 0x7b, 0x32, 0x69, 0x19, 0x70, 0x3b, 0xac, 0x03, 0x1c, 0xae,
        0x7f, 0x60,
    ];
    let id = Identity::from_secret_bytes(&secret);
    assert_eq!(
        id.id().to_string(),
        "d75a980182b10ab7d54bfed3c964073a0ee172f3daa62325af021a68f707511a"
    );
    assert_eq!(id.secret_text(), "9d61b19deffd5a60ba844af492ec2cc44449c5697b326919703bac031cae7f60");
    let again = Identity::from_secret_text(&id.secret_text()).unwrap();
    assert_eq!(again.id(), id.id());
    assert_eq!(id.id().fmt_short(), "d75a980182");
    assert_eq!(did_key(&id.id()), id.did());
}

#[test]
fn bad_publishers_and_secrets() {
    assert_eq!(parse_publisher("nope"), Err(Error::InvalidPublisher));
    assert_eq!(parse_publisher("did:key:abc"), Err(Error::DidKeyEncoding));
    assert_eq!(parse_publisher("did:key:z0OIl"), Err(Error::DidKeyBase58));
    assert!(!is_hex_publisher("ABCD"));
    assert_eq!(Identity::from_secret_text("xyz").map(|i| i.id()), Err(Error::SecretKeyNotHex));
    assert_eq!(Identity::from_secret_text("abcd").map(|i| i.id()), Err(Error::SecretKeyLength));
    let id = Identity::generate().id();
    assert_eq!(PublisherId::from_bytes(id.as_bytes()), Ok(id));
}

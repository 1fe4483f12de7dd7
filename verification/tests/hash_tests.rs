use ocid_core::error::Error;
use ocid_core::hash::Blake3;

#[test]
fn roundtrip() {
    let h = Blake3::from_bytes([7u8; 32]);
    assert_eq!(h.to_hex(), "07".repeat(32));
    let back: Blake3 = h.to_hex().parse().unwrap();
    assert_eq!(back, h);
    assert_eq!(Blake3::parse(&h.to_hex()).unwrap(), h);
}

#[test]
fn hash_text_errors() {
    assert_eq!(Blake3::parse("zz"), Err(Error::HashNotHex));
    assert_eq!(Blake3::parse("0707"), Err(Error::HashLength));
    assert_eq!(Blake3::from_bytes([0xab; 32]).fmt_short(), "ababababab");
}

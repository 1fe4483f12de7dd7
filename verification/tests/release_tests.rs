use serde::ser::SerializeStruct;
use ocid_core::error::Error;
use ocid_core::hash::Blake3;
use ocid_core::identity::Identity;
use ocid_core::oci::Digest;
use ocid_core::release::{BlobRef, Referrer, Release, ReleasePayload, ReleaseSummary, RELEASE_VERSION};

fn blob(data: &[u8]) -> BlobRef {
    let d = Digest::sha256(data);
    // any 32 bytes will do for signing tests
    let mut h = [0u8; 32];
    for (i, b) in d.hex().as_bytes().chunks(2).enumerate() {
        h[i] = u8::from_str_radix(std::str::from_utf8(b).unwrap(), 16).unwrap();
    }
    BlobRef { digest: d, hash: Blake3::from_bytes(h), size: data.len() as u64, media_type: None }
}

fn payload(id: &Identity, tag: &str, timestamp: u64) -> ReleasePayload {
    ReleasePayload {
        version: 0,
        publisher: id.id(),
        name: "app".into(),
        tag: tag.into(),
        manifest: blob(b"{}"),
        blobs: vec![blob(b"layer")],
        timestamp,
        referrers: vec![],
    }
}

#[test]
fn sign_and_verify() {
    let id = Identity::generate();
    let rel = Release::sign(&id, payload(&id, "1.0", 0)).unwrap();
    rel.verify().unwrap();

    // tamper
    let bad = Release { payload: payload(&id, "2.0", rel.payload.timestamp), signature: rel.signature.clone() };
    let mut bad = bad;
    bad.payload.version = RELEASE_VERSION;
    assert!(bad.verify().is_err());
}

#[test]
fn verify_reports_each_defect() {
    let id = Identity::generate();
    let rel = Release::sign_at(&id, payload(&id, "1.0", 0), 1_700_000_000).unwrap();
    assert_eq!(rel.payload.timestamp, 1_700_000_000);
    assert_eq!(rel.payload.version, RELEASE_VERSION);
    assert_eq!(rel.verify(), Ok(()));

    let mut p = payload(&id, "1.0", 5);
    p.version = 9;
    let wrong_version = Release { payload: p, signature: rel.signature.clone() };
    assert_eq!(wrong_version.verify(), Err(Error::ReleaseVersion));

    let mut p = payload(&id, "1.0", 1_700_000_000);
    p.version = RELEASE_VERSION;
    let not_hex = Release { payload: p, signature: "zz".into() };
    assert_eq!(not_hex.verify(), Err(Error::SignatureNotHex));

    let mut p = payload(&id, "1.0", 1_700_000_000);
    p.version = RELEASE_VERSION;
    let short = Release { payload: p, signature: "abcd".into() };
    assert_eq!(short.verify(), Err(Error::SignatureLength));

    let other = Identity::generate();
    let mut p = payload(&id, "1.0", 1_700_000_000);
    p.version = RELEASE_VERSION;
    p.publisher = other.id();
    let foreign = Release { payload: p, signature: rel.signature.clone() };
    assert_eq!(foreign.verify(), Err(Error::BadSignature));
}

#[test]
fn newer_releases_supersede() {
    let id = Identity::generate();
    let a = Release::sign_at(&id, payload(&id, "1.0", 10), 0).unwrap();
    let b = Release::sign_at(&id, payload(&id, "1.0", 11), 0).unwrap();
    assert!(b.supersedes(&a));
    assert!(!a.supersedes(&b));
    assert!(!a.supersedes(&a));
}

#[test]
fn release_facts() {
    let id = Identity::generate();
    let r = Release::sign_at(&id, payload(&id, "1.0", 42), 0).unwrap();
    assert_eq!(r.reference(), format!("{}/app:1.0", id.id().to_string()));
    assert_eq!(r.all_blobs().len(), 2);
    assert_eq!(r.total_size(), 2 + 5);
    assert_eq!(r.name(), "app");
    assert_eq!(*r.publisher(), id.id());
    let s = ReleaseSummary::from(&r);
    assert_eq!(s.tag, "1.0");
    assert_eq!(s.timestamp, 42);
}

fn referrer(annotations: &[(&str, &str)]) -> Referrer {
    Referrer {
        digest: Digest::sha256(b"sig"),
        media_type: "application/vnd.oci.image.manifest.v1+json".into(),
        size: 3,
        artifact_type: None,
        annotations: annotations.iter().map(|(k, v)| (k.to_string(), v.to_string())).collect(),
    }
}

#[test]
fn annotations_are_written_as_a_key_ordered_map() {
    let id = Identity::from_secret_bytes(&[5; 32]);
    let mut p = payload(&id, "1.0", 7);
    p.referrers = vec![referrer(&[("b", "2"), ("a", "1"), ("b", "3")])];
    let text = String::from_utf8(p.canonical_bytes().unwrap()).unwrap();
    assert!(text.contains(r#""annotations":{"a":"1","b":"3"}"#), "{text}");

    let mut q = payload(&id, "1.0", 7);
    q.referrers = vec![referrer(&[("a", "1"), ("b", "3")])];
    assert_eq!(p.canonical_bytes().unwrap(), q.canonical_bytes().unwrap());

    let mut e = payload(&id, "1.0", 7);
    e.referrers = vec![referrer(&[])];
    let text = String::from_utf8(e.canonical_bytes().unwrap()).unwrap();
    assert!(!text.contains("annotations"), "{text}");
}

fn fixed_payload(with_referrer: bool) -> ReleasePayload {
    let secret = [
        0x9d, 0x61, 0xb1, 0x9d, 0xef, 0xfd, 0x5a, 0x60, 0xba, 0x84, 0x4a, 0xf4, 0x92, 0xec, 0x2c,
        0xc4, 0x44, 0x49, 0xc5, 0x69, 0x7b, 0x32, 0x69, 0x19, 0x70, 0x3b, 0xac, 0x03, 0x1c, 0xae,
        0x7f, 0x60,
    ];
    let id = Identity::from_secret_bytes(&secret);
    let d = |c: char| Digest::parse(&format!("sha256:{}", c.to_string().repeat(64))).unwrap();
    ReleasePayload {
        version: 1,
        publisher: id.id(),
        name: "library/app".into(),
        tag: "1.0".into(),
        manifest: BlobRef {
            digest: d('a'),
            hash: Blake3::from_bytes([0x11; 32]),
            size: 2,
            media_type: Some("application/vnd.oci.image.manifest.v1+json".into()),
        },
        blobs: vec![BlobRef { digest: d('b'), hash: Blake3::from_bytes([0x22; 32]), size: 5, media_type: None }],
        timestamp: 1700000000,
        referrers: if with_referrer {
            vec![Referrer {
                digest: d('c'),
                media_type: "application/vnd.oci.image.manifest.v1+json".into(),
                size: 3,
                artifact_type: Some("application/vnd.dev.sigstore.bundle+json".into()),
                annotations: vec![
                    ("org.opencontainers.image.created".into(), "2024-01-01T00:00:00Z".into()),
                    ("note".into(), "say \"hi\" é\n".into()),
                ],
            }]
        } else {
            vec![]
        },
    }
}

#[test]
fn canonical_bytes_of_a_fixed_payload() {
    let a = "a".repeat(64);
    let b = "b".repeat(64);
    let c = "c".repeat(64);
    let h1 = "11".repeat(32);
    let h2 = "22".repeat(32);
    let mut head = String::new();
    head.push_str(r#"{"version":1,"publisher":"d75a980182b10ab7d54bfed3c964073a0ee172f3daa62325af021a68f707511a","#);
    head.push_str(r#""name":"library/app","tag":"1.0","#);
    head.push_str(&format!(
        r#""manifest":{{"digest":"sha256:{a}","hash":"{h1}","size":2,"media_type":"application/vnd.oci.image.manifest.v1+json"}},"#
    ));
    head.push_str(&format!(r#""blobs":[{{"digest":"sha256:{b}","hash":"{h2}","size":5}}],"timestamp":1700000000"#));
    let plain = format!("{head}}}");
    assert_eq!(String::from_utf8(fixed_payload(false).canonical_bytes().unwrap()).unwrap(), plain);

    let mut with_referrer = head.clone();
    with_referrer.push_str(&format!(
        r#","referrers":[{{"digest":"sha256:{c}","media_type":"application/vnd.oci.image.manifest.v1+json","#
    ));
    with_referrer.push_str(r#""size":3,"artifact_type":"application/vnd.dev.sigstore.bundle+json","#);
    with_referrer.push_str(
        r#""annotations":{"note":"say \"hi\" é\n","org.opencontainers.image.created":"2024-01-01T00:00:00Z"}}]}"#,
    );
    assert_eq!(String::from_utf8(fixed_payload(true).canonical_bytes().unwrap()).unwrap(), with_referrer);
}

// The shape of the signed record as serde would encode it: fields in
// declaration order, absent optional fields and empty `referrers` and
// `annotations` skipped, annotations as a map.
struct BlobS<'a>(&'a BlobRef);
struct ReferrerS<'a>(&'a Referrer);
struct PayloadS<'a>(&'a ReleasePayload);

impl serde::Serialize for BlobS<'_> {
    fn serialize<S: serde::Serializer>(&self, s: S) -> Result<S::Ok, S::Error> {
        let b = self.0;
        let mut st = s.serialize_struct("BlobRef", 4)?;
        st.serialize_field("digest", b.digest.as_str())?;
        st.serialize_field("hash", &b.hash.to_hex())?;
        st.serialize_field("size", &b.size)?;
        match &b.media_type {
            Some(m) => st.serialize_field("media_type", m)?,
            None => st.skip_field("media_type")?,
        }
        st.end()
    }
}

impl serde::Serialize for ReferrerS<'_> {
    fn serialize<S: serde::Serializer>(&self, s: S) -> Result<S::Ok, S::Error> {
        let r = self.0;
        let mut st = s.serialize_struct("Referrer", 5)?;
        st.serialize_field("digest", r.digest.as_str())?;
        st.serialize_field("media_type", &r.media_type)?;
        st.serialize_field("size", &r.size)?;
        match &r.artifact_type {
            Some(t) => st.serialize_field("artifact_type", t)?,
            None => st.skip_field("artifact_type")?,
        }
        let map: std::collections::BTreeMap<String, String> = r.annotations.iter().cloned().collect();
        if map.is_empty() {
            st.skip_field("annotations")?;
        } else {
            st.serialize_field("annotations", &map)?;
        }
        st.end()
    }
}

impl serde::Serialize for PayloadS<'_> {
    fn serialize<S: serde::Serializer>(&self, s: S) -> Result<S::Ok, S::Error> {
        let p = self.0;
        let mut st = s.serialize_struct("ReleasePayload", 8)?;
        st.serialize_field("version", &p.version)?;
        st.serialize_field("publisher", &p.publisher.to_string())?;
        st.serialize_field("name", &p.name)?;
        st.serialize_field("tag", &p.tag)?;
        st.serialize_field("manifest", &BlobS(&p.manifest))?;
        let blobs: Vec<BlobS> = p.blobs.iter().map(BlobS).collect();
        st.serialize_field("blobs", &blobs)?;
        st.serialize_field("timestamp", &p.timestamp)?;
        if p.referrers.is_empty() {
            st.skip_field("referrers")?;
        } else {
            let rs: Vec<ReferrerS> = p.referrers.iter().map(ReferrerS).collect();
            st.serialize_field("referrers", &rs)?;
        }
        st.end()
    }
}

#[test]
fn canonical_bytes_are_serde_json_bytes() {
    for with_referrer in [false, true] {
        let p = fixed_payload(with_referrer);
        assert_eq!(p.canonical_bytes().unwrap(), serde_json::to_vec(&PayloadS(&p)).unwrap());
    }
    let id = Identity::from_secret_bytes(&[5; 32]);
    let mut p = payload(&id, "1.0", 7);
    p.referrers = vec![referrer(&[("b", "2"), ("a", "1"), ("b", "3")])];
    assert_eq!(p.canonical_bytes().unwrap(), serde_json::to_vec(&PayloadS(&p)).unwrap());
}

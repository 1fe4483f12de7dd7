use ocid_core::config::Policy;
use ocid_core::error::Error;
use ocid_core::identity::Identity;
use ocid_core::oci::{
    is_manifest_media_type, split_tag, validate_name, validate_tag, Digest, ImageRef, Manifest,
    MT_DOCKER_LIST, MT_OCI_INDEX, MT_OCI_MANIFEST,
};

#[test]
fn split_tags() {
    assert_eq!(split_tag("app").unwrap(), ("app".into(), None));
    assert_eq!(split_tag("app:1.0").unwrap(), ("app".into(), Some("1.0".into())));
    assert_eq!(split_tag("team/app:v1").unwrap(), ("team/app".into(), Some("v1".into())));
    assert!(split_tag("App").is_err());
}

#[test]
fn hybrid_resolution() {
    let me = Identity::generate();
    let alice = Identity::generate();
    let mut policy = Policy::default();
    policy.set_alias("alice", &alice.id().to_string()).unwrap();
    policy.set_alias("team-app", &format!("{}/my-app", alice.id().to_string())).unwrap();

    let r = ImageRef::parse("web:1.0", &policy, &me.id()).unwrap();
    assert_eq!((r.publisher, r.name.as_str(), r.tag.as_deref()), (me.id(), "web", Some("1.0")));

    let r = ImageRef::parse("alice/web", &policy, &me.id()).unwrap();
    assert_eq!((r.publisher, r.name.as_str()), (alice.id(), "web"));

    let r = ImageRef::parse("team-app:2", &policy, &me.id()).unwrap();
    assert_eq!(
        (r.publisher, r.name.as_str(), r.tag.as_deref()),
        (alice.id(), "my-app", Some("2"))
    );

    let r = ImageRef::parse(&format!("{}/x/y:z", alice.id().to_string()), &policy, &me.id()).unwrap();
    assert_eq!((r.publisher, r.name.as_str(), r.tag.as_deref()), (alice.id(), "x/y", Some("z")));

    let r = ImageRef::parse(&format!("{}/x:z", alice.did()), &policy, &me.id()).unwrap();
    assert_eq!((r.publisher, r.name.as_str(), r.tag.as_deref()), (alice.id(), "x", Some("z")));
}

#[test]
fn digest_parse() {
    let d = Digest::sha256(b"hi");
    assert!(d.as_str().starts_with("sha256:"));
    assert_eq!(d.hex().len(), 64);
    assert!("sha256:zz".parse::<Digest>().is_err());
    assert!("md5:abcd".parse::<Digest>().is_err());
}

#[test]
fn digest_of_known_data() {
    let d = Digest::sha256(b"hi");
    assert_eq!(
        d.as_str(),
        "sha256:8f434346648f6b96df89dda901c5176b10a6d83961dd3c1ac88b59b2dc327aa4"
    );
    assert_eq!(Digest::parse(d.as_str()), Ok(d.clone()));
    assert_eq!(Digest::parse("md5:abcd"), Err(Error::UnsupportedDigest));
    assert_eq!(Digest::parse("sha256:zz"), Err(Error::MalformedDigest));
    let upper = format!("sha256:{}", "A".repeat(64));
    assert_eq!(Digest::parse(&upper), Err(Error::MalformedDigest));
    assert_eq!(Digest::from_sha256_bytes(&[0xab; 2]).as_str(), "sha256:abab");
}

#[test]
fn names_and_tags() {
    assert_eq!(validate_name("web/app"), Ok(()));
    assert_eq!(validate_name("a..b/c_d-e"), Ok(()));
    assert_eq!(validate_name(".hidden"), Err(Error::InvalidName));
    assert_eq!(validate_name("a/"), Err(Error::InvalidName));
    assert_eq!(validate_name("UPPER"), Err(Error::InvalidName));
    assert_eq!(validate_name(&"a".repeat(256)), Err(Error::InvalidName));
    assert_eq!(validate_tag("v1.0_rc-1"), Ok(()));
    assert_eq!(validate_tag("_x"), Ok(()));
    assert_eq!(validate_tag("-x"), Err(Error::InvalidTag));
    assert_eq!(validate_tag(&"t".repeat(129)), Err(Error::InvalidTag));
    assert_eq!(split_tag("app:-bad"), Err(Error::InvalidTag));
    assert_eq!(split_tag("localhost:5000/app"), Err(Error::InvalidName));
}

#[test]
fn references_read_back() {
    let alice = Identity::generate().id();
    let r = ImageRef { publisher: alice, name: "web/app".into(), tag: Some("1.0".into()) };
    let text = r.to_string();
    assert_eq!(text, format!("{}/web/app:1.0", alice.to_string()));
    let back = ImageRef::parse_explicit(&text).unwrap();
    assert_eq!((back.publisher, back.name.as_str(), back.tag.as_deref()), (alice, "web/app", Some("1.0")));
    assert_eq!(back.tag_or_latest(), "1.0");
    let untagged = ImageRef::parse_explicit(&format!("{}/web", alice.to_string())).unwrap();
    assert_eq!(untagged.tag_or_latest(), "latest");
    assert_eq!(ImageRef::parse_explicit("web:1.0").map(|r| r.name), Err(Error::MissingPublisher));
}

#[test]
fn manifest_kinds() {
    assert!(Manifest::is_index(Some(MT_OCI_INDEX), None, false));
    assert!(Manifest::is_index(Some(MT_DOCKER_LIST), Some(MT_OCI_MANIFEST), false));
    assert!(!Manifest::is_index(Some(MT_OCI_MANIFEST), Some(MT_OCI_INDEX), true));
    assert!(Manifest::is_index(None, Some(MT_OCI_INDEX), false));
    assert!(Manifest::is_index(None, None, true));
    assert!(!Manifest::is_index(None, None, false));
    assert!(is_manifest_media_type(MT_OCI_MANIFEST));
    assert!(!is_manifest_media_type("text/plain"));
}

#[test]
fn sha256_digests_are_well_formed() {
    let d = Digest::sha256(b"hi");
    assert_eq!(d.hex().len(), 64);
    assert!(d.hex().bytes().all(|b| matches!(b, b'0'..=b'9' | b'a'..=b'f')));
    assert_eq!(format!("sha256:{}", d.hex()), d.as_str());
    assert_eq!(Digest::parse(d.as_str()).unwrap().as_str(), d.as_str());
}

use ocid_core::release::{Release, ReleasePayload};
use ocid_core::index::should_store;
use ocid_core::hash::Blake3;
use ocid_core::index::check_blob;
use ocid_core::release::BlobRef;
use ocid_core::error::Error;
use ocid_core::identity::{Identity, PublisherId};
use ocid_core::index::{is_release_file, json_file_stem, sort_referrers, Index};
use ocid_core::oci::Digest;
use ocid_core::paths::Paths;
use ocid_core::release::Referrer;

fn index() -> Index {
    Index::open(&Paths { home: "/tmp/ocid-index-test".to_string() })
}

fn publisher() -> PublisherId {
    Identity::generate().id()
}

#[test]
fn rejects_traversal_names() {
    let ix = index();
    let p = publisher();
    for name in ["../evil", "a/../b", "..", ".", "a/..", "/abs", "//abs", "a//b", "", "a/b/c/../../d"] {
        assert!(ix.release_dir(&p, name).is_err(), "name {name:?} must be rejected");
        assert!(ix.list_tags(&p, name, &[]).is_err(), "name {name:?} must be rejected by list_tags");
    }
}

#[test]
fn rejects_traversal_tags() {
    let ix = index();
    let p = publisher();
    for tag in ["../evil", "..", "", "a/b", "/abs", "a\\b", ".hidden"] {
        assert!(ix.release_path(&p, "app", tag).is_err(), "tag {tag:?} must be rejected");
    }
}

#[test]
fn valid_references_stay_within_the_store() {
    let ix = index();
    let p = publisher();
    let dir = ix.release_dir(&p, "web/app").unwrap();
    assert!(dir.starts_with(&format!("{}/", ix.paths().releases())));
    assert!(dir.ends_with(&format!("{}/web/app", p.to_string())));
    let file = ix.release_path(&p, "web/app", "1.0").unwrap();
    assert!(file.starts_with(&format!("{}/", ix.paths().releases())));
    assert!(file.ends_with("/1.0.json"));
}

#[test]
fn record_paths() {
    let ix = index();
    let p = publisher();
    assert_eq!(
        ix.release_path(&p, "app", "1.0").unwrap(),
        format!("/tmp/ocid-index-test/index/releases/{}/app/1.0.json", p.to_string())
    );
    assert_eq!(ix.release_path(&p, "App", "-x"), Err(Error::InvalidTag));
    assert_eq!(ix.release_path(&p, "App", "x"), Err(Error::InvalidName));
    let d = Digest::sha256(b"x");
    assert_eq!(
        ix.digest_path(&d),
        format!("/tmp/ocid-index-test/index/digests/{}.json", d.hex())
    );
    assert_eq!(
        ix.referrers_dir(&d),
        format!("/tmp/ocid-index-test/index/referrers/{}", d.hex())
    );
    let e = Digest::sha256(b"y");
    assert_eq!(
        ix.referrer_path(&d, &e),
        format!("/tmp/ocid-index-test/index/referrers/{}/{}.json", d.hex(), e.hex())
    );
}

#[test]
fn tags_are_json_stems_sorted() {
    let ix = index();
    let p = publisher();
    let entries = vec![
        ("2.0.json".to_string(), true),
        (".1.0.json.tmp-x".to_string(), true),
        ("1.0.json".to_string(), true),
        ("notes.txt".to_string(), true),
        ("sub.json".to_string(), false),
        (".json".to_string(), true),
        ("10.json".to_string(), true),
    ];
    assert_eq!(ix.list_tags(&p, "app", &entries).unwrap(), vec!["1.0", "10", "2.0"]);
}

#[test]
fn file_names() {
    assert_eq!(json_file_stem("a.b.json"), Some("a.b".to_string()));
    assert_eq!(json_file_stem(".json"), None);
    assert_eq!(json_file_stem("x.JSON"), None);
    assert!(is_release_file("1.0.json"));
    assert!(!is_release_file(".1.0.json"));
    assert!(!is_release_file("1.0.txt"));
}

#[test]
fn referrer_files_name_their_manifest() {
    let ix = index();
    let d = Digest::sha256(b"m");
    let name = format!("{}.json", d.hex());
    assert_eq!(
        ix.referrer_digest_file(&name),
        Some(format!("/tmp/ocid-index-test/index/digests/{}.json", d.hex()))
    );
    assert_eq!(ix.referrer_digest_file("short.json"), None);
    assert_eq!(ix.referrer_digest_file(&format!("{}.json", "G".repeat(64))), None);
}

fn referrer(data: &[u8]) -> Referrer {
    Referrer {
        digest: Digest::sha256(data),
        media_type: "application/vnd.oci.image.manifest.v1+json".to_string(),
        size: data.len() as u64,
        artifact_type: None,
        annotations: vec![],
    }
}

#[test]
fn referrers_listed_by_digest() {
    let v = vec![referrer(b"a"), referrer(b"b"), referrer(b"c")];
    let mut want: Vec<String> = v.iter().map(|r| r.digest.as_str().to_string()).collect();
    want.sort();
    let got: Vec<String> = sort_referrers(v).iter().map(|r| r.digest.as_str().to_string()).collect();
    assert_eq!(got, want);
}

#[test]
fn blobs_checked_against_their_record() {
    let d = Digest::sha256(b"abc");
    let b = BlobRef { digest: d.clone(), hash: Blake3::from_bytes([0; 32]), size: 3, media_type: None };
    assert_eq!(check_blob(&b, &d, 3), Ok(()));
    assert_eq!(check_blob(&b, &d, 4), Err(Error::SizeMismatch));
    assert_eq!(check_blob(&b, &Digest::sha256(b"x"), 3), Err(Error::DigestMismatch));
}

#[test]
fn storing_releases() {
    let id = Identity::generate();
    let mk = |ts: u64, data: &[u8]| Release {
        payload: ReleasePayload {
            version: 1,
            publisher: id.id(),
            name: "app".into(),
            tag: "1.0".into(),
            manifest: BlobRef { digest: Digest::sha256(data), hash: Blake3::from_bytes([0; 32]), size: 1, media_type: None },
            blobs: vec![],
            timestamp: ts,
            referrers: vec![],
        },
        signature: String::new(),
    };
    let a = mk(10, b"a");
    assert!(should_store(&a, None));
    assert!(!should_store(&a, Some(&a)));
    assert!(should_store(&mk(11, b"a"), Some(&a)));
    assert!(should_store(&mk(10, b"b"), Some(&a)));
    assert!(!should_store(&mk(9, b"b"), Some(&a)));
}

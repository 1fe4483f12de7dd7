use ocid_core::registry::{referrers_matching, tags_with_manifest};
use ocid_core::release::{Referrer, Release, ReleasePayload};
use ocid_core::error::Error;
use ocid_core::identity::Identity;
use ocid_core::metrics::RequestLabels;
use ocid_core::oci::Digest;
use ocid_core::registry::{
    catalog_repositories, check_manifest_reference, check_push_target, check_rm,
    media_type_of_header, parse_range, route, route_family, upload_location, Route,
};

#[test]
fn routes() {
    assert!(matches!(route("_catalog"), Some(Route::Catalog)));
    match route("team/app/tags/list") {
        Some(Route::Tags { name }) => assert_eq!(name, "team/app"),
        other => panic!("{other:?}"),
    }
    match route("app/manifests/1.0") {
        Some(Route::Manifest { name, reference }) => {
            assert_eq!((name.as_str(), reference.as_str()), ("app", "1.0"))
        }
        other => panic!("{other:?}"),
    }
    match route("app/blobs/uploads/") {
        Some(Route::UploadStart { name }) => assert_eq!(name, "app"),
        other => panic!("{other:?}"),
    }
    match route("app/blobs/uploads/abc") {
        Some(Route::Upload { name, id }) => assert_eq!((name.as_str(), id.as_str()), ("app", "abc")),
        other => panic!("{other:?}"),
    }
    match route("app/blobs/sha256:00") {
        Some(Route::Blob { name, digest }) => {
            assert_eq!((name.as_str(), digest.as_str()), ("app", "sha256:00"))
        }
        other => panic!("{other:?}"),
    }
    match route("app/referrers/sha256:11") {
        Some(Route::Referrers { name, digest }) => {
            assert_eq!((name.as_str(), digest.as_str()), ("app", "sha256:11"))
        }
        other => panic!("{other:?}"),
    }
    assert!(route("app/nothing").is_none());
    assert_eq!(upload_location("app", "u1"), "/v2/app/blobs/uploads/u1");
}

#[test]
fn route_families() {
    assert_eq!(route_family("/metrics"), "metrics");
    assert_eq!(route_family("/_ocid/status"), "control");
    assert_eq!(route_family("/v2/"), "root");
    assert_eq!(route_family("/v2"), "root");
    assert_eq!(route_family("/v2/_catalog"), "catalog");
    assert_eq!(route_family("/v2/app/tags/list"), "tags");
    assert_eq!(route_family("/v2/app/blobs/uploads/x"), "uploads");
    assert_eq!(route_family("/v2/app/manifests/1"), "manifests");
    assert_eq!(route_family("/v2/app/referrers/sha256:1"), "other");
    assert_eq!(route_family("/v2/app/blobs/sha256:1"), "blobs");
    assert_eq!(route_family("/v2/app/x"), "other");
    assert_eq!(route_family("/favicon.ico"), "other");
    let l = RequestLabels::of("GET".to_string(), "/v2/app/blobs/sha256:1", 200);
    assert_eq!((l.method.as_str(), l.route, l.status), ("GET", "blobs", 200));
}

#[test]
fn byte_ranges() {
    assert_eq!(parse_range("bytes=0-9", 100), Some((0, 9)));
    assert_eq!(parse_range("bytes=90-", 100), Some((90, 99)));
    assert_eq!(parse_range("bytes=-10", 100), Some((90, 99)));
    assert_eq!(parse_range("bytes=-500", 100), Some((0, 99)));
    assert_eq!(parse_range("bytes=50-500", 100), Some((50, 99)));
    assert_eq!(parse_range("bytes=100-", 100), None);
    assert_eq!(parse_range("bytes=9-3", 100), None);
    assert_eq!(parse_range("bytes=0-1,4-5", 100), None);
    assert_eq!(parse_range("items=0-1", 100), None);
    assert_eq!(parse_range("bytes=0-0", 0), None);
}

#[test]
fn push_and_rm_rules() {
    let me = Identity::generate().id();
    let other = Identity::generate().id();
    assert_eq!(check_push_target(&me, &me), Ok(()));
    assert_eq!(check_push_target(&other, &me), Err(Error::ForeignNamespace));
    assert_eq!(check_rm(true, true), Err(Error::AllWithTag));
    assert_eq!(check_rm(false, false), Err(Error::MissingTag));
    assert_eq!(check_rm(true, false), Ok(()));
    assert_eq!(check_rm(false, true), Ok(()));
}

#[test]
fn manifest_references() {
    let d = Digest::sha256(b"manifest");
    assert_eq!(check_manifest_reference("1.0", &d), Ok(true));
    assert_eq!(check_manifest_reference(d.as_str(), &d), Ok(false));
    let other = Digest::sha256(b"other");
    assert_eq!(check_manifest_reference(other.as_str(), &d), Err(Error::DigestMismatch));
    assert_eq!(check_manifest_reference("-bad", &d), Err(Error::InvalidTag));
    assert_eq!(
        media_type_of_header(" application/vnd.oci.image.manifest.v1+json ; charset=utf-8"),
        "application/vnd.oci.image.manifest.v1+json"
    );
    assert_eq!(media_type_of_header("text/plain"), "text/plain");
}

#[test]
fn catalog_drops_repeats() {
    let v: Vec<String> = ["a/x", "a/x", "a/y", "a/x"].iter().map(|s| s.to_string()).collect();
    assert_eq!(catalog_repositories(&v), vec!["a/x", "a/y", "a/x"]);
}

use ocid_core::hash::Blake3;
use ocid_core::oci::Descriptor;
use ocid_core::registry::{
    blob_body, collect_step, dispatch, reference_kind, served_media_type, upload_range, BlobBody,
    Handler, Method, Refusal,
};
use ocid_core::release::BlobRef;

#[test]
fn dispatching() {
    assert_eq!(dispatch(&route("_catalog"), Method::Get), Ok(Handler::Catalog));
    assert_eq!(dispatch(&route("_catalog"), Method::Put), Err(Refusal::NoRoute));
    assert_eq!(dispatch(&route("a/manifests/1"), Method::Head), Ok(Handler::ManifestGet { head: true }));
    assert_eq!(dispatch(&route("a/manifests/1"), Method::Post), Err(Refusal::MethodNotAllowed));
    assert_eq!(dispatch(&route("a/blobs/sha256:1"), Method::Delete), Err(Refusal::BlobDelete));
    assert_eq!(dispatch(&route("a/blobs/uploads/x"), Method::Delete), Ok(Handler::UploadCancel));
    assert_eq!(dispatch(&route("a/blobs/uploads"), Method::Post), Ok(Handler::UploadStart));
    assert_eq!(dispatch(&route("a/referrers/sha256:1"), Method::Get), Ok(Handler::ReferrersGet));
    assert_eq!(dispatch(&route("nothing"), Method::Get), Err(Refusal::NoRoute));
}

#[test]
fn blob_bodies() {
    assert!(matches!(blob_body(100, None), BlobBody::Whole { len: 100 }));
    match blob_body(100, Some("bytes=10-19")) {
        BlobBody::Part { start, len, content_range } => {
            assert_eq!((start, len, content_range.as_str()), (10, 10, "bytes 10-19/100"))
        }
        other => panic!("{other:?}"),
    }
    match blob_body(100, Some("bytes=200-")) {
        BlobBody::Unsatisfiable { content_range } => assert_eq!(content_range, "bytes */100"),
        other => panic!("{other:?}"),
    }
    assert_eq!(upload_range(0), "0-0");
    assert_eq!(upload_range(512), "0-511");
}

#[test]
fn manifest_reference_kinds() {
    let d = Digest::sha256(b"m");
    assert_eq!(reference_kind(d.as_str()), Ok(Some(d.clone())));
    assert_eq!(reference_kind("v1"), Ok(None));
    assert_eq!(reference_kind(".v1"), Err(Error::InvalidTag));
    let b = BlobRef { digest: d.clone(), hash: Blake3::from_bytes([1; 32]), size: 3, media_type: None };
    assert_eq!(served_media_type(&b), "application/vnd.oci.image.manifest.v1+json");
}

fn descriptor(data: &[u8], media_type: &str) -> Descriptor {
    Descriptor {
        media_type: media_type.to_string(),
        digest: Digest::sha256(data),
        size: data.len() as u64,
        artifact_type: None,
        annotations: None,
    }
}

#[test]
fn collecting_referenced_blobs() {
    let mut out: Vec<BlobRef> = Vec::new();
    let layer = descriptor(b"layer", "application/vnd.oci.image.layer.v1.tar");
    assert_eq!(collect_step(&mut out, &layer, None).map(|s| s.descend), Err(Error::BlobUnknown));
    let found = BlobRef { digest: layer.digest.clone(), hash: Blake3::from_bytes([2; 32]), size: 5, media_type: None };
    let step = collect_step(&mut out, &layer, Some(found.clone())).unwrap();
    assert!(!step.descend);
    assert_eq!(step.record.unwrap().media_type.as_deref(), Some("application/vnd.oci.image.layer.v1.tar"));
    assert_eq!(out.len(), 1);
    let again = collect_step(&mut out, &layer, Some(found)).unwrap();
    assert!(!again.descend);
    assert_eq!(out.len(), 1);
    let child = descriptor(b"child", "application/vnd.oci.image.manifest.v1+json");
    let found = BlobRef {
        digest: child.digest.clone(),
        hash: Blake3::from_bytes([3; 32]),
        size: 5,
        media_type: Some("application/vnd.oci.image.manifest.v1+json".into()),
    };
    let step = collect_step(&mut out, &child, Some(found)).unwrap();
    assert!(step.descend);
    assert!(step.record.is_none());
    assert_eq!(out.len(), 2);
}

fn referrer(data: &[u8], artifact: Option<&str>) -> Referrer {
    Referrer {
        digest: Digest::sha256(data),
        media_type: "application/vnd.oci.image.manifest.v1+json".into(),
        size: data.len() as u64,
        artifact_type: artifact.map(String::from),
        annotations: vec![],
    }
}

#[test]
fn referrer_filters() {
    let v = vec![referrer(b"a", Some("sbom")), referrer(b"b", None), referrer(b"c", Some("sig")), referrer(b"d", Some("sbom"))];
    assert_eq!(referrers_matching(&v, None), vec![0, 1, 2, 3]);
    assert_eq!(referrers_matching(&v, Some("sbom")), vec![0, 3]);
    assert!(referrers_matching(&v, Some("none")).is_empty());
}

#[test]
fn tags_by_manifest() {
    let me = Identity::generate().id();
    let mk = |tag: &str, data: &[u8]| Release {
        payload: ReleasePayload {
            version: 1,
            publisher: me,
            name: "app".into(),
            tag: tag.into(),
            manifest: BlobRef { digest: Digest::sha256(data), hash: Blake3::from_bytes([0; 32]), size: 1, media_type: None },
            blobs: vec![],
            timestamp: 1,
            referrers: vec![],
        },
        signature: String::new(),
    };
    let rs = vec![mk("1.0", b"x"), mk("latest", b"x"), mk("2.0", b"y")];
    assert_eq!(tags_with_manifest(&rs, &Digest::sha256(b"x")), vec!["1.0", "latest"]);
    assert!(tags_with_manifest(&rs, &Digest::sha256(b"z")).is_empty());
}

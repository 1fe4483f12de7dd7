use ocid_core::api::ReleaseInfo;
use ocid_core::cli::{list_row, ModeArgs, pin_offline, seed_offline, shown_alias, tag_or_mode, yes_no};
use ocid_core::config::{Mode, Policy};
use ocid_core::error::Error;
use ocid_core::identity::Identity;
use ocid_core::oci::Digest;
use ocid_core::release::ReleaseSummary;

#[test]
fn modes_from_flags() {
    assert_eq!(ModeArgs { full: true, latest: false, last: None }.mode(), Ok(Mode::Full));
    assert_eq!(ModeArgs { full: false, latest: true, last: None }.mode(), Ok(Mode::Latest));
    assert_eq!(ModeArgs { full: false, latest: false, last: None }.mode(), Ok(Mode::Latest));
    assert_eq!(ModeArgs { full: false, latest: false, last: Some(3) }.mode(), Ok(Mode::Last(3)));
    assert_eq!(ModeArgs { full: false, latest: false, last: Some(1) }.mode(), Ok(Mode::Latest));
    assert_eq!(ModeArgs { full: false, latest: false, last: Some(0) }.mode(), Err(Error::ModeZero));
}

#[test]
fn small_texts() {
    assert_eq!(tag_or_mode("abc/app:1.0", Mode::Full), "this tag");
    assert_eq!(tag_or_mode("abc/app", Mode::Last(2)), "mode last:2");
    assert_eq!(yes_no(true), "yes");
    assert_eq!(yes_no(false), "no");
}

#[test]
fn offline_seed_and_pin() {
    let me = Identity::generate().id();
    let alice = Identity::generate().id();
    let mut p = Policy::default();
    assert_eq!(seed_offline(&mut p, &me, "web", Mode::Latest).map(|r| r.0), Err(Error::OwnImage));
    assert_eq!(p.seed.len(), 0);
    let r = seed_offline(&mut p, &me, &format!("{}/web", alice.to_string()), Mode::Last(2)).unwrap();
    assert_eq!(r, (true, format!("{}/web", alice.to_string())));
    let r = seed_offline(&mut p, &me, &format!("{}/web", alice.to_string()), Mode::Last(2)).unwrap();
    assert!(!r.0);
    assert_eq!(
        pin_offline(&mut p, &me, &format!("{}/web", alice.to_string())).map(|r| r.0),
        Err(Error::PinWithoutTag)
    );
    let r = pin_offline(&mut p, &me, &format!("{}/web:1.0", alice.to_string())).unwrap();
    assert_eq!(r, (true, format!("{}/web:1.0", alice.to_string())));
    assert!(p.is_pinned(&alice, "web", "1.0"));
    assert_eq!(seed_offline(&mut p, &me, "Bad Name", Mode::Latest).map(|r| r.0), Err(Error::InvalidName));
}

#[test]
fn aliases_shown_in_listing() {
    let alice = Identity::generate();
    let a = alice.id().to_string();
    let mut p = Policy::default();
    p.set_alias("zed", &a).unwrap();
    p.set_alias("al", &a).unwrap();
    p.set_alias("site", &format!("{a}/web")).unwrap();
    assert_eq!(shown_alias(&p.alias, &a), Some("zed".to_string()));
    assert_eq!(shown_alias(&p.alias, "nobody"), None);

    let row = list_row(
        &p,
        &ReleaseInfo {
            summary: ReleaseSummary {
                publisher: alice.id(),
                name: "web".into(),
                tag: "1.0".into(),
                manifest_digest: Digest::sha256(b"m"),
                timestamp: 1,
            },
            complete: false,
            size: 1,
            blobs: 4,
            mine: false,
        },
    );
    assert_eq!(row.publisher, "zed");
    assert_eq!(row.image, "site (web)");
    assert_eq!(row.tag, "1.0");
    assert_eq!(row.digest, format!("{}…", &Digest::sha256(b"m").hex()[..12]));
    assert_eq!(row.blobs, "4");
    assert_eq!(row.state, "partial");
    assert_eq!(row.policy, "-");

    let plain = Policy::default();
    let row = list_row(
        &plain,
        &ReleaseInfo {
            summary: ReleaseSummary {
                publisher: alice.id(),
                name: "web".into(),
                tag: "1.0".into(),
                manifest_digest: Digest::sha256(b"m"),
                timestamp: 1,
            },
            complete: true,
            size: 1,
            blobs: 1,
            mine: true,
        },
    );
    assert_eq!(row.publisher, "(me)");
    assert_eq!(row.image, "web");
    assert_eq!(row.state, "complete");
    assert_eq!(row.policy, "own");
}

use ocid_core::replication::{announcement_providers, attach_referrer_payload, inventory_images, summaries_of, topic_changes};
use ocid_core::release::Referrer;
use ocid_core::replication::{blob_action, fetch_providers, gossip_step, upload_stale, BlobAction, GossipAction, GossipEvent};
use ocid_core::config::{Mode, Policy};
use ocid_core::hash::Blake3;
use ocid_core::identity::{Identity, PublisherId};
use ocid_core::oci::Digest;
use ocid_core::release::{BlobRef, Release, ReleasePayload, ReleaseSummary};
use ocid_core::replication::{
    accepts_announcement, candidate_peers, gc_removals, orphan_pins, retained_set, select_wanted,
    still_wanted, window_prune_tags, Scope,
};

fn blob(data: &[u8], h: u8) -> BlobRef {
    BlobRef { digest: Digest::sha256(data), hash: Blake3::from_bytes([h; 32]), size: data.len() as u64, media_type: None }
}

fn release(p: &PublisherId, name: &str, tag: &str, ts: u64, h: u8) -> Release {
    Release {
        payload: ReleasePayload {
            version: 1,
            publisher: *p,
            name: name.into(),
            tag: tag.into(),
            manifest: blob(tag.as_bytes(), h),
            blobs: vec![],
            timestamp: ts,
            referrers: vec![],
        },
        signature: String::new(),
    }
}

fn summary(p: &PublisherId, name: &str, tag: &str, ts: u64) -> ReleaseSummary {
    ReleaseSummary { publisher: *p, name: name.into(), tag: tag.into(), manifest_digest: Digest::sha256(tag.as_bytes()), timestamp: ts }
}

#[test]
fn last_two_fetches_the_two_newest() {
    let alice = Identity::generate().id();
    let mut p = Policy::default();
    p.add_seed(&format!("{}/app", alice.to_string()), Mode::Last(2)).unwrap();
    let local = vec![release(&alice, "app", "1.0", 10, 1)];
    let remote = vec![
        summary(&alice, "app", "1.0", 10),
        summary(&alice, "app", "2.0", 20),
        summary(&alice, "app", "3.0", 30),
    ];
    let w = select_wanted(&p, &alice, "app", &local, &remote);
    let tags: Vec<&str> = w.iter().map(|s| s.tag.as_str()).collect();
    assert_eq!(tags, vec!["2.0", "3.0"]);
    // nothing for an image without rules
    assert!(select_wanted(&Policy::default(), &alice, "app", &local, &remote).is_empty());
}

#[test]
fn pruning_keeps_window_and_pins() {
    let me = Identity::generate().id();
    let alice = Identity::generate().id();
    let mut p = Policy::default();
    p.add_seed(&format!("{}/app", alice.to_string()), Mode::Latest).unwrap();
    p.add_pin(&format!("{}/app:1.0", alice.to_string())).unwrap();
    let local = vec![
        release(&alice, "app", "1.0", 10, 1),
        release(&alice, "app", "2.0", 20, 2),
        release(&alice, "app", "3.0", 30, 3),
    ];
    assert_eq!(window_prune_tags(&me, &p, &alice, "app", &local), vec!["2.0"]);
    // own images are never pruned
    let own = vec![release(&me, "app", "1.0", 1, 4), release(&me, "app", "2.0", 2, 5)];
    assert!(window_prune_tags(&me, &p, &me, "app", &own).is_empty());

    let mut all = local;
    all.extend(own);
    let mut kept = retained_set(&me, &p, &all);
    kept.sort();
    let mut want = vec![
        format!("{}/app:1.0", alice.to_string()),
        format!("{}/app:3.0", alice.to_string()),
        format!("{}/app:1.0", me.to_string()),
        format!("{}/app:2.0", me.to_string()),
    ];
    want.sort();
    assert_eq!(kept, want);
    assert!(still_wanted(&me, &p, &alice, "app"));
    assert!(!still_wanted(&me, &p, &alice, "other"));
}

#[test]
fn gc_respects_grace() {
    let keep = vec!["k".to_string()];
    let refs = vec!["k".to_string(), "young".to_string(), "old".to_string(), "unknown".to_string()];
    let ages = vec![Some(1), Some(5), Some(500), None];
    assert_eq!(gc_removals(&keep, &refs, &ages, 60, false), vec!["old", "unknown"]);
    assert_eq!(gc_removals(&keep, &refs, &ages, 60, true), vec!["young", "old", "unknown"]);
}

#[test]
fn orphans_are_unreferenced_pins() {
    let alice = Identity::generate().id();
    let releases = vec![release(&alice, "app", "1.0", 1, 1), release(&alice, "app", "2.0", 2, 2)];
    let pins = vec![
        (Digest::sha256(b"1.0"), Blake3::from_bytes([1; 32])),
        (Digest::sha256(b"2.0"), Blake3::from_bytes([2; 32])),
        (Digest::sha256(b"x"), Blake3::from_bytes([9; 32])),
    ];
    let ignore = vec![format!("{}/app:2.0", alice.to_string())];
    let o = orphan_pins(&releases, &ignore, &pins);
    let hashes: Vec<String> = o.iter().map(|(_, h)| h.to_hex()).collect();
    assert_eq!(hashes, vec!["02".repeat(32), "09".repeat(32)]);
}

#[test]
fn announcements_and_peers() {
    let me = Identity::generate().id();
    let alice = Identity::generate().id();
    let bob = Identity::generate().id();
    assert!(accepts_announcement(&Scope::Publisher(alice), &alice));
    assert!(!accepts_announcement(&Scope::Publisher(alice), &bob));
    assert!(accepts_announcement(&Scope::Swarm, &alice));
    let c = candidate_peers(&me, &[bob, me], &[bob, alice], &alice);
    assert!(c.contains(&bob));
    assert!(c.contains(&alice));
    assert!(!c.contains(&me));
    assert_eq!(c.iter().filter(|p| **p == bob).count(), 1);
}

#[test]
fn fetching_decisions() {
    let me = Identity::generate().id();
    let a = Identity::generate().id();
    assert_eq!(fetch_providers(&[a, me, a], &me), vec![a, a]);
    assert_eq!(blob_action(true, true, 0), BlobAction::Keep);
    assert_eq!(blob_action(true, false, 0), BlobAction::CheckAndRecord);
    assert_eq!(blob_action(false, false, 0), BlobAction::NoProvider);
    assert_eq!(blob_action(false, true, 2), BlobAction::Download);
    assert!(upload_stale(Some(86401)));
    assert!(!upload_stale(Some(86400)));
    assert!(!upload_stale(None));
}

#[test]
fn providers_and_topics() {
    let me = Identity::generate().id();
    let a = Identity::generate().id();
    let b = Identity::generate().id();
    assert_eq!(announcement_providers(&a, &b), vec![a, b]);
    assert_eq!(announcement_providers(&a, &a), vec![a]);

    let mut p = Policy::default();
    p.add_follow(&a, Mode::Latest);
    let (stale, fresh) = topic_changes(&[b, me], &p, &me);
    assert_eq!(stale, vec![b]);
    assert_eq!(fresh, vec![a]);
}

#[test]
fn inventories() {
    let me = Identity::generate().id();
    let a = Identity::generate().id();
    let inv = vec![
        summary(&a, "app", "1.0", 1),
        summary(&me, "own", "1.0", 2),
        summary(&a, "app", "2.0", 3),
        summary(&a, "web", "1.0", 4),
    ];
    let images: Vec<(PublisherId, String)> = inventory_images(&inv, &me);
    assert_eq!(images.len(), 2);
    assert!(images.contains(&(a, "app".to_string())));
    assert!(images.contains(&(a, "web".to_string())));
    let app: Vec<String> = summaries_of(&inv, &a, "app").iter().map(|s| s.tag.clone()).collect();
    assert_eq!(app, vec!["1.0", "2.0"]);
}

#[test]
fn referrers_attach_to_own_releases() {
    let me = Identity::generate().id();
    let other = Identity::generate().id();
    let rel = release(&me, "app", "1.0", 100, 1);
    let subject = rel.payload.manifest.digest.clone();
    let sig = Referrer {
        digest: Digest::sha256(b"sig"),
        media_type: "application/vnd.oci.image.manifest.v1+json".into(),
        size: 3,
        artifact_type: Some("application/vnd.dev.sigstore".into()),
        annotations: vec![],
    };
    let extra = vec![blob(b"sig", 7), blob(b"1.0", 1)];
    let p = attach_referrer_payload(rel, &me, &subject, sig.clone(), &extra, 50).unwrap();
    assert_eq!(p.timestamp, 101);
    assert_eq!(p.referrers.len(), 1);
    assert_eq!(p.blobs.len(), 2);
    let theirs = release(&other, "app", "1.0", 100, 1);
    assert!(attach_referrer_payload(theirs, &me, &subject, sig, &extra, 500).is_none());
}

#[test]
fn inventory_images_are_ordered_by_publisher_then_name() {
    let me = Identity::from_secret_bytes(&[9; 32]).id();
    let mut ids: Vec<PublisherId> = (1u8..=2).map(|s| Identity::from_secret_bytes(&[s; 32]).id()).collect();
    ids.sort_by_key(|k| k.to_string());
    let (lo, hi) = (ids[0], ids[1]);
    let inv = vec![
        summary(&hi, "b", "1", 1),
        summary(&lo, "z", "1", 1),
        summary(&hi, "a", "1", 1),
        summary(&lo, "c", "1", 1),
        summary(&hi, "b", "2", 2),
    ];
    let images = inventory_images(&inv, &me);
    assert_eq!(
        images,
        vec![(lo, "c".to_string()), (lo, "z".to_string()), (hi, "a".to_string()), (hi, "b".to_string())]
    );
}

#[test]
fn topic_joins_are_in_key_order() {
    let me = Identity::from_secret_bytes(&[9; 32]).id();
    let mut ids: Vec<PublisherId> = (1u8..=3).map(|s| Identity::from_secret_bytes(&[s; 32]).id()).collect();
    let mut p = Policy::default();
    for k in &ids {
        p.add_follow(k, Mode::Latest);
    }
    let (stale, fresh) = topic_changes(&[], &p, &me);
    assert!(stale.is_empty());
    ids.push(me);
    ids.sort_by_key(|k| k.to_string());
    assert_eq!(fresh, ids);
}

#[test]
fn gossip_steps() {
    let a = Identity::from_secret_bytes(&[1; 32]).id();
    let b = Identity::from_secret_bytes(&[2; 32]).id();
    let peer = Identity::from_secret_bytes(&[3; 32]).id();
    let on_a = Scope::Publisher(a);
    assert!(matches!(gossip_step(&Scope::Swarm, GossipEvent::NeighborUp(peer)), GossipAction::NeighborUpThenSync(p) if p == peer));
    assert!(matches!(gossip_step(&on_a, GossipEvent::NeighborUp(peer)), GossipAction::SeenThenSync(p) if p == peer));
    assert!(matches!(gossip_step(&Scope::Swarm, GossipEvent::NeighborDown(peer)), GossipAction::NeighborDown(p) if p == peer));
    assert!(matches!(gossip_step(&on_a, GossipEvent::NeighborDown(peer)), GossipAction::Ignore));
    assert!(matches!(gossip_step(&on_a, GossipEvent::Lagged), GossipAction::Ignore));
    assert!(matches!(gossip_step(&on_a, GossipEvent::Received { from: peer, summary: None }), GossipAction::Ignore));
    let mine = GossipEvent::Received { from: peer, summary: Some(summary(&a, "app", "1.0", 1)) };
    assert!(matches!(gossip_step(&on_a, mine), GossipAction::Announcement { summary, from } if summary.tag == "1.0" && from == peer));
    let other = GossipEvent::Received { from: peer, summary: Some(summary(&b, "app", "1.0", 1)) };
    assert!(matches!(gossip_step(&on_a, other), GossipAction::Ignore));
}

use ocid_core::identity::Identity;
use ocid_core::peers::{bootstrap_ids, PeerAddr, Peers};
use ocid_core::topic::{publisher_topic, swarm_topic};

fn addr(seed: u8, addrs: &[&str]) -> PeerAddr {
    PeerAddr {
        id: Identity::from_secret_bytes(&[seed; 32]).id(),
        addrs: addrs.iter().map(|a| a.to_string()).collect(),
    }
}

#[test]
fn upsert_inserts_new_endpoint() {
    let mut peers = Peers::new();
    assert!(peers.upsert(addr(1, &["127.0.0.1:4433"])));
    assert!(peers.upsert(addr(2, &["10.0.0.2:4433"])));
    assert_eq!(peers.peers.len(), 2);
    assert_eq!(peers.peers[1].addrs, vec!["10.0.0.2:4433".to_string()]);
}

#[test]
fn upsert_replaces_known_endpoint() {
    let mut peers = Peers::new();
    assert!(peers.upsert(addr(1, &["127.0.0.1:4433"])));
    assert!(peers.upsert(addr(2, &["10.0.0.2:4433"])));
    assert!(!peers.upsert(addr(1, &["relay:https://relay.example"])));
    assert_eq!(peers.peers.len(), 2);
    assert_eq!(peers.peers[0].id, addr(1, &[]).id);
    assert_eq!(peers.peers[0].addrs, vec!["relay:https://relay.example".to_string()]);
    assert_eq!(peers.peers[1].addrs, vec!["10.0.0.2:4433".to_string()]);
}

#[test]
fn upsert_twice_changes_nothing() {
    let mut peers = Peers::new();
    peers.upsert(addr(3, &["a", "b"]));
    let before: Vec<Vec<String>> = peers.peers.iter().map(|p| p.addrs.clone()).collect();
    assert!(!peers.upsert(addr(3, &["a", "b"])));
    let after: Vec<Vec<String>> = peers.peers.iter().map(|p| p.addrs.clone()).collect();
    assert_eq!(before, after);
}

#[test]
fn swarm_topic_is_hash_of_label() {
    assert_eq!(swarm_topic(), *blake3::hash(b"ocid/swarm/v1").as_bytes());
}

#[test]
fn publisher_topic_hashes_prefix_and_key() {
    let id = Identity::from_secret_bytes(&[7; 32]).id();
    let mut h = blake3::Hasher::new();
    h.update(b"ocid/publisher/v1/");
    h.update(id.as_bytes());
    assert_eq!(publisher_topic(&id), *h.finalize().as_bytes());
    let other = Identity::from_secret_bytes(&[8; 32]).id();
    assert_ne!(publisher_topic(&id), publisher_topic(&other));
    assert_ne!(publisher_topic(&id), swarm_topic());
}

#[test]
fn bootstrap_ids_merge_neighbors_and_peers_without_self() {
    let me = Identity::from_secret_bytes(&[1; 32]).id();
    let a = Identity::from_secret_bytes(&[2; 32]).id();
    let b = Identity::from_secret_bytes(&[3; 32]).id();
    let mut peers = Peers::new();
    peers.upsert(addr(1, &["x"]));
    peers.upsert(addr(3, &["y"]));
    let ids = bootstrap_ids(&[a, me, a], &peers, &me);
    assert_eq!(ids.len(), 2);
    assert!(ids.contains(&a) && ids.contains(&b));
    assert!(!ids.contains(&me));
    let mut want = vec![a, b];
    want.sort_by_key(|k| k.to_string());
    assert_eq!(ids, want);
}

use ocid_core::api::{MetricsSnapshot, ReleaseInfo};
use ocid_core::config::{Mode, Policy};
use ocid_core::dashboard::{
    gauge_text, gauges, inspector, last_seen, modal_view, peer_state, spark_caption, spark_totals,
    state_lines, totals, Histories, Total,
};
use ocid_core::identity::Identity;
use ocid_core::oci::Digest;
use ocid_core::release::ReleaseSummary;
use ocid_core::tui::{Modal, Tone};

fn snapshot(k: u64) -> MetricsSnapshot {
    MetricsSnapshot {
        http_requests_total: 10 * k,
        http_bytes_served: 1000 * k,
        http_bytes_received: 7,
        releases_published: 1,
        releases_replicated: k,
        releases_failed: 0,
        blobs_fetched: 2 * k,
        blobs_fetched_bytes: 99,
        announcements_received: 3 * k,
        announcements_sent: k,
        sync_requests_total: 5,
        mdns_discovered: 1,
        gossip_topics: 2,
        gc_runs: 4,
        gc_releases_removed: 3,
        gc_blobs_removed: 9,
        gc_bytes_freed: 1024,
        neighbors: -1,
        peers_known: 3,
        releases: 25,
        policy_seeds: 2,
        policy_follows: 1,
        uptime_seconds: 7260,
    }
}

#[test]
fn sparkline_deltas() {
    let mut h = Histories::new();
    h.push_snapshot(None, &snapshot(1));
    assert!(h.http.is_empty());
    h.push_snapshot(Some(&snapshot(1)), &snapshot(3));
    assert_eq!((h.http[0], h.bytes[0], h.repl[0], h.gossip[0]), (20, 2000, 6, 8));
    let mut m = snapshot(1);
    m.releases_replicated = u64::MAX;
    assert_eq!(spark_totals(&m).2, u64::MAX);
    assert_eq!(spark_caption(&h.http), "last/poll 20");
    assert_eq!(spark_caption(&[]), "last/poll 0");
}

#[test]
fn gauges_and_totals() {
    let m = snapshot(2);
    let g = gauges(&m);
    assert_eq!((g[0].label, g[0].value, g[0].max), ("Neighbors", 0, 16));
    assert_eq!((g[2].label, g[2].value, g[2].max), ("Releases", 25, 25));
    assert_eq!((g[3].label, g[3].value, g[3].max), ("Gossip topics", 2, 4));
    assert_eq!(gauge_text(3, 0), "3/1");
    let rows = totals(&m);
    assert_eq!(rows.len(), 13);
    match &rows[8].1 {
        Total::Text(s) => assert_eq!(s, "6/2"),
        other => panic!("{other:?}"),
    }
    match &rows[11].1 {
        Total::Text(s) => assert_eq!(s, "4/3/9"),
        other => panic!("{other:?}"),
    }
    assert!(matches!(rows[12].1, Total::Bytes(1024)));
    let (up, policy) = state_lines(&m);
    assert_eq!((up.as_str(), policy.as_str()), ("121m", "1f/2s"));
    let mut neg = m;
    neg.uptime_seconds = -61;
    assert_eq!(state_lines(&neg).0, "-1m");
}

#[test]
fn dialog_texts() {
    assert!(modal_view(&Modal::Closed).is_none());
    let v = modal_view(&Modal::ConfirmGc { force: true }).unwrap();
    assert_eq!(v.title, "Force garbage collection");
    assert_eq!(v.lines[0], "Remove ALL unmanaged releases now, ignoring the grace period.");
    assert_eq!(v.confirm, Some(("Y", "run")));
    let v = modal_view(&Modal::SeedPrompt { target: "p/app".into(), input: "last:2".into() }).unwrap();
    assert_eq!(v.lines[3], "> last:2█");
    assert_eq!(v.tone, Tone::Cyan);
    let v = modal_view(&Modal::Notice("hi".into())).unwrap();
    assert_eq!((v.title, v.lines[0].as_str(), v.tone), ("Notice", "hi", Tone::LightCyan));
}

#[test]
fn inspector_and_peers() {
    let alice = Identity::generate().id();
    let mut p = Policy::default();
    p.add_follow(&alice, Mode::Last(2));
    p.add_pin(&format!("{}/app:1.0", alice.to_string())).unwrap();
    let info = ReleaseInfo {
        summary: ReleaseSummary {
            publisher: alice,
            name: "app".into(),
            tag: "1.0".into(),
            manifest_digest: Digest::sha256(b"m"),
            timestamp: 1,
        },
        complete: false,
        size: 1,
        blobs: 1,
        mine: false,
    };
    let i = inspector(&p, &info);
    assert_eq!(i.reference, format!("{}/app:1.0", alice.to_string()));
    assert_eq!(i.window, "last:2+1 tag(s)");
    assert_eq!(i.follow, "   follow: last:2");
    assert!(i.pinned);
    assert_eq!(i.state, "incomplete (fetching)");
    assert_eq!(peer_state(true, true), ("✓ neighbor", Tone::Green));
    assert_eq!(peer_state(false, true), ("known", Tone::Gray));
    assert_eq!(peer_state(false, false), ("seen", Tone::DarkGray));
    assert_eq!(last_seen(Some(12)), "12s ago");
    assert_eq!(last_seen(None), "-");
}

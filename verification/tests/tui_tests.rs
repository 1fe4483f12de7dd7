use ocid_core::api::{DaemonEvent, ReleaseInfo};
use ocid_core::config::{Mode, Policy};
use ocid_core::identity::Identity;
use ocid_core::oci::Digest;
use ocid_core::release::ReleaseSummary;
use ocid_core::tui::{
    clamp, event_line, log_push, move_selection, policy_label, push_delta, seed_from_prompt, short,
    toggle_pin, Action, Key, KeyCode, Modal, Tab, Tone, Ui, HIST, LOG_CAP,
};

fn key(c: char) -> Key {
    Key { code: KeyCode::Char(c), ctrl: false }
}

fn info(publisher: &Identity, tag: &str, mine: bool) -> ReleaseInfo {
    ReleaseInfo {
        summary: ReleaseSummary {
            publisher: publisher.id(),
            name: "app".into(),
            tag: tag.into(),
            manifest_digest: Digest::sha256(tag.as_bytes()),
            timestamp: 1,
        },
        complete: true,
        size: 10,
        blobs: 2,
        mine,
    }
}

#[test]
fn tabs_cycle() {
    let mut t = Tab::Images;
    for want in [Tab::Peers, Tab::Events, Tab::Metrics, Tab::Images] {
        t = t.next();
        assert_eq!(t, want);
    }
}

#[test]
fn sparkline_history() {
    let mut h: Vec<u64> = Vec::new();
    push_delta(&mut h, 10, 4);
    push_delta(&mut h, 3, 4);
    assert_eq!(h, vec![6, 0]);
    for i in 0..200u64 {
        push_delta(&mut h, i + 1, i);
    }
    assert_eq!(h.len(), HIST);
    assert!(h.iter().all(|d| *d == 1));
}

#[test]
fn selections() {
    assert_eq!(clamp(Some(3), 0), None);
    assert_eq!(clamp(None, 4), Some(0));
    assert_eq!(clamp(Some(9), 4), Some(3));
    assert_eq!(clamp(Some(2), 4), Some(2));
    assert_eq!(move_selection(Some(3), 4, 1), Some(0));
    assert_eq!(move_selection(Some(0), 4, -1), Some(3));
    assert_eq!(move_selection(None, 4, -1), Some(3));
    assert_eq!(move_selection(Some(1), 0, 1), Some(1));
    assert_eq!(move_selection(Some(2), 5, -7), Some(0));
    assert_eq!(short("0123456789abcdef"), "0123456789…");
    assert_eq!(short("abc"), "abc…");
}

#[test]
fn keys_without_dialog() {
    let me = Identity::generate();
    let alice = Identity::generate();
    let rows = vec![info(&me, "1.0", true), info(&alice, "2.0", false)];
    let mut ui = Ui::new();
    assert!(matches!(ui.on_key(Key { code: KeyCode::Tab, ctrl: false }, &rows, 0), Action::Nothing));
    assert_eq!(ui.tab, Tab::Peers);
    ui.on_key(key('1'), &rows, 0);
    assert_eq!(ui.tab, Tab::Images);
    ui.on_key(key('j'), &rows, 0);
    assert_eq!(ui.images, Some(1));
    ui.on_key(Key { code: KeyCode::Down, ctrl: false }, &rows, 0);
    assert_eq!(ui.images, Some(0));
    // own release: notice, no pin
    match ui.on_key(key('p'), &rows, 0) {
        Action::Report(l) => {
            assert_eq!((l.kind, l.msg.as_str(), l.tone), ("POLICY", "own release: always kept, no policy needed", Tone::Yellow))
        }
        other => panic!("{other:?}"),
    }
    assert!(matches!(ui.modal, Modal::Notice(_)));
    // any key closes the notice
    assert!(matches!(ui.on_key(key('x'), &rows, 0), Action::Nothing));
    assert!(matches!(ui.modal, Modal::Closed));
    ui.on_key(key('k'), &rows, 0);
    assert_eq!(ui.images, Some(1));
    assert!(matches!(ui.on_key(key('p'), &rows, 0), Action::TogglePin(1)));
    assert!(matches!(ui.on_key(key('f'), &rows, 0), Action::Follow(1)));
    assert!(matches!(ui.on_key(key('r'), &rows, 0), Action::Poll));
    assert!(matches!(ui.on_key(key('y'), &rows, 0), Action::Sync));
    ui.on_key(key('q'), &rows, 0);
    assert!(ui.quit);
}

#[test]
fn dialogs() {
    let alice = Identity::generate();
    let rows = vec![info(&alice, "2.0", false)];
    let mut ui = Ui::new();
    ui.images = Some(0);

    ui.on_key(key('G'), &rows, 0);
    assert!(matches!(ui.modal, Modal::ConfirmGc { force: true }));
    assert!(matches!(ui.on_key(key('Y'), &rows, 0), Action::Gc { force: true }));
    assert!(matches!(ui.modal, Modal::Closed));

    ui.on_key(key('g'), &rows, 0);
    assert!(matches!(ui.on_key(key('n'), &rows, 0), Action::Nothing));
    assert!(matches!(ui.modal, Modal::Closed));

    ui.on_key(key('d'), &rows, 0);
    match ui.on_key(key('y'), &rows, 0) {
        Action::Delete(r) => assert_eq!(r, format!("{}/app:2.0", alice.id().to_string())),
        other => panic!("{other:?}"),
    }

    ui.on_key(key('s'), &rows, 0);
    match &ui.modal {
        Modal::SeedPrompt { target, input } => {
            assert_eq!(target, &format!("{}/app", alice.id().to_string()));
            assert_eq!(input, "latest");
        }
        other => panic!("{other:?}"),
    }
    for _ in 0..6 {
        ui.on_key(Key { code: KeyCode::Backspace, ctrl: false }, &rows, 0);
    }
    for c in "last:3".chars() {
        ui.on_key(key(c), &rows, 0);
    }
    match ui.on_key(Key { code: KeyCode::Enter, ctrl: false }, &rows, 0) {
        Action::Seed { target, input } => {
            assert_eq!(target, format!("{}/app", alice.id().to_string()));
            assert_eq!(input, "last:3");
        }
        other => panic!("{other:?}"),
    }
    ui.on_key(key('s'), &rows, 0);
    assert!(matches!(ui.on_key(Key { code: KeyCode::Char('c'), ctrl: true }, &rows, 0), Action::Nothing));
    assert!(matches!(ui.modal, Modal::Closed));
    assert!(!ui.quit);
}

#[test]
fn event_lines() {
    let alice = Identity::generate().id();
    let s = short(&alice.to_string());
    let l = event_line(&DaemonEvent::Gossip { publisher: alice, name: "app".into(), tag: "1".into(), outbound: true }).unwrap();
    assert_eq!((l.kind, l.msg, l.tone), ("GOSSIP", format!("→ {s}/app:1"), Tone::Blue));
    let l = event_line(&DaemonEvent::ReleaseSaved { publisher: alice, name: "app".into(), tag: "1".into(), blobs: 3 }).unwrap();
    assert_eq!((l.kind, l.msg, l.tone), ("SAVED", format!("{s}/app:1 (3 blobs)"), Tone::LightGreen));
    let l = event_line(&DaemonEvent::Pruned { publisher: alice, name: "app".into(), tag: "1".into(), reason: "window".into() }).unwrap();
    assert_eq!((l.kind, l.msg, l.tone), ("PRUNE", format!("{s}/app:1 (window)"), Tone::Yellow));
    let l = event_line(&DaemonEvent::PeerChange { id: alice, connected: false }).unwrap();
    assert_eq!((l.kind, l.msg, l.tone), ("PEER", format!("{s} disconnected"), Tone::DarkGray));
    let l = event_line(&DaemonEvent::HttpRequest { method: "GET".into(), path: "/v2/".into(), status: 404 }).unwrap();
    assert_eq!((l.kind, l.msg, l.tone), ("HTTP", "GET /v2/ → 404".to_string(), Tone::Red));
    assert!(event_line(&DaemonEvent::FetchFailed { publisher: alice, name: "a".into(), tag: "1".into(), error: "x".into() }).is_none());
}

#[test]
fn log_keeps_newest() {
    let mut log: Vec<u32> = Vec::new();
    for i in 0..(LOG_CAP as u32 + 5) {
        log_push(&mut log, i);
    }
    assert_eq!(log.len(), LOG_CAP);
    assert_eq!(log[0], LOG_CAP as u32 + 4);
}

#[test]
fn policy_edits_from_the_dashboard() {
    let me = Identity::generate();
    let alice = Identity::generate();
    let mut p = Policy::default();
    let own = info(&me, "1.0", true);
    let theirs = info(&alice, "2.0", false);
    assert_eq!(policy_label(&p, &own), "own");
    assert_eq!(policy_label(&p, &theirs), "-");
    let (pinned, reference) = toggle_pin(&mut p, &theirs.summary);
    assert!(pinned);
    assert_eq!(reference, format!("{}/app:2.0", alice.id().to_string()));
    assert_eq!(policy_label(&p, &theirs), "pin");
    let (pinned, _) = toggle_pin(&mut p, &theirs.summary);
    assert!(!pinned);
    let target = format!("{}/app", alice.id().to_string());
    assert_eq!(seed_from_prompt(&mut p, &target, " last:4 "), Ok(Mode::Last(4)));
    assert_eq!(policy_label(&p, &theirs), "last:4");
    assert!(seed_from_prompt(&mut p, &target, "bogus").is_err());
}

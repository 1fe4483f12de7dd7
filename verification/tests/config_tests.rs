use ocid_core::config::is_default_mode;
use std::collections::BTreeSet;

use ocid_core::config::{FollowEntry, Mode, Policy, SeedEntry, Window};
use ocid_core::error::Error;
use ocid_core::identity::Identity;

#[test]
fn mode_roundtrip() {
    for (s, m) in [
        ("full", Mode::Full),
        ("latest", Mode::Latest),
        ("last:1", Mode::Latest),
        ("last:3", Mode::Last(3)),
    ] {
        assert_eq!(s.parse::<Mode>().unwrap(), m);
    }
    assert!("last:0".parse::<Mode>().is_err());
    assert!("weird".parse::<Mode>().is_err());
    assert_eq!(Mode::Last(3).to_string(), "last:3");
}

/// Reads a policy file the way its string-or-table entries are written: a
/// plain string takes the default mode, a table names its mode.
fn policy_from_toml(text: &str) -> Policy {
    let v: toml::Table = text.parse().unwrap();
    let entry = |e: &toml::Value, key: &str| -> (String, Mode) {
        match e {
            toml::Value::String(s) => (s.clone(), Mode::default()),
            toml::Value::Table(t) => (
                t[key].as_str().unwrap().to_string(),
                t.get("mode").map(|m| Mode::parse(m.as_str().unwrap()).unwrap()).unwrap_or_default(),
            ),
            _ => panic!("unexpected policy entry"),
        }
    };
    let list = |k: &str| v.get(k).and_then(|x| x.as_array()).cloned().unwrap_or_default();
    Policy {
        seed: list("seed")
            .iter()
            .map(|e| {
                let (reference, mode) = entry(e, "ref");
                SeedEntry { reference, mode }
            })
            .collect(),
        follow: list("follow")
            .iter()
            .map(|e| {
                let (publisher, mode) = entry(e, "publisher");
                FollowEntry { publisher, mode }
            })
            .collect(),
        pin: list("pin").iter().map(|e| e.as_str().unwrap().to_string()).collect(),
        alias: vec![],
    }
}

fn sorted(v: Vec<String>) -> BTreeSet<String> {
    v.into_iter().collect()
}

#[test]
fn policy_toml_compat_and_window() {
    let alice = Identity::generate().id();
    let alice = alice.to_string();
    let text = format!(
        r#"
seed = ["{alice}/old-style", {{ ref = "{alice}/app", mode = "last:2" }}, "{alice}/app:1.0"]
follow = ["{alice}"]
pin = ["{alice}/app:0.9"]
"#
    );
    let p = policy_from_toml(&text);
    let alice = ocid_core::identity::parse_publisher(&alice).unwrap();
    assert_eq!(p.seed[0].mode, Mode::Latest);
    assert_eq!(p.seed[1].mode, Mode::Last(2));
    assert_eq!(p.follow[0].mode, Mode::Latest);

    let w = p.window(&alice, "app");
    assert!(!w.full);
    assert_eq!(w.last, 2);
    assert_eq!(
        sorted(w.tags.clone()),
        BTreeSet::from(["1.0".to_string(), "0.9".to_string()])
    );

    // newest two + explicit tags
    let known = [("3.0", 30), ("2.0", 20), ("1.0", 10), ("0.9", 9), ("0.5", 5)];
    let sel = w.select(&known);
    assert_eq!(
        sorted(sel),
        BTreeSet::from_iter(["3.0", "2.0", "1.0", "0.9"].map(String::from))
    );

    // follow-only image: latest
    let w = p.window(&alice, "other");
    assert_eq!(w.last, 1);
    assert_eq!(sorted(w.select(&[("b", 2), ("a", 1)])), BTreeSet::from(["b".to_string()]));
    // same-second pushes: greater tag wins
    assert_eq!(
        sorted(w.select(&[("4", 7), ("5", 7), ("3", 6)])),
        BTreeSet::from(["5".to_string()])
    );

    assert_eq!(p.publishers(), vec![alice]);
}

#[test]
fn mode_parse_errors_by_kind() {
    assert_eq!(Mode::parse("last:0"), Err(Error::ModeZero));
    assert_eq!(Mode::parse("last:x"), Err(Error::ModeNumber));
    assert_eq!(Mode::parse("weird"), Err(Error::ModeSyntax));
    assert_eq!(Mode::parse("  full "), Ok(Mode::Full));
    assert_eq!(Mode::parse("all"), Ok(Mode::Full));
    assert_eq!(Mode::parse("last=4"), Ok(Mode::Last(4)));
}

#[test]
fn mode_text_of_each_kind() {
    assert_eq!(Mode::Full.to_string(), "full");
    assert_eq!(Mode::Latest.to_string(), "latest");
    assert_eq!(Mode::Last(12).to_string(), "last:12");
    assert_eq!(Mode::Full.window(), None);
    assert_eq!(Mode::Latest.window(), Some(1));
    assert_eq!(Mode::Last(5).window(), Some(5));
}

#[test]
fn seeding_twice_changes_nothing() {
    let alice = Identity::generate().id();
    let mut p = Policy::default();
    let rule = format!("{}/app", alice.to_string());
    assert_eq!(p.add_seed(&rule, Mode::Last(2)), Ok(true));
    assert_eq!(p.add_seed(&rule, Mode::Last(2)), Ok(false));
    assert_eq!(p.seed.len(), 1);
    assert!(p.covers(&alice, "app"));
    // another mode replaces the rule in place
    assert_eq!(p.add_seed(&rule, Mode::Full), Ok(true));
    assert_eq!(p.seed.len(), 1);
    assert_eq!(p.seed[0].mode, Mode::Full);
    assert_eq!(p.remove_seed(&rule), Ok(true));
    assert!(!p.covers(&alice, "app"));
    assert_eq!(p.remove_seed(&rule), Ok(false));
}

#[test]
fn following_twice_changes_nothing() {
    let alice = Identity::generate().id();
    let mut p = Policy::default();
    assert!(p.add_follow(&alice, Mode::Latest));
    assert!(!p.add_follow(&alice, Mode::Latest));
    assert_eq!(p.follow_mode(&alice), Some(Mode::Latest));
    assert!(p.remove_follow(&alice));
    assert_eq!(p.follow_mode(&alice), None);
    assert!(!p.remove_follow(&alice));
}

#[test]
fn pins_need_a_tag() {
    let alice = Identity::generate().id();
    let mut p = Policy::default();
    assert_eq!(p.add_pin(&format!("{}/app", alice.to_string())), Err(Error::PinWithoutTag));
    assert_eq!(p.add_pin(&format!("{}/app:1.0", alice.to_string())), Ok(true));
    assert_eq!(p.add_pin(&format!("{}/app:1.0", alice.to_string())), Ok(false));
    assert!(p.is_pinned(&alice, "app", "1.0"));
    assert!(!p.is_pinned(&alice, "app", "2.0"));
    assert_eq!(p.remove_pin(&format!("{}/app:1.0", alice.to_string())), Ok(true));
    assert!(!p.is_pinned(&alice, "app", "1.0"));
}

#[test]
fn aliases_resolve_and_refuse() {
    let alice = Identity::generate().id();
    let mut p = Policy::default();
    assert_eq!(p.set_alias("Bad Alias", &alice.to_string()), Err(Error::InvalidAlias));
    assert_eq!(p.set_alias("alice", "not a key"), Err(Error::AliasTarget));
    assert_eq!(p.set_alias("alice", &alice.to_string()), Ok(()));
    assert!(p.resolve_alias("alice").is_some());
    assert!(p.resolve_alias("bob").is_none());
    assert!(p.remove_alias("alice"));
    assert!(!p.remove_alias("alice"));
    assert!(p.resolve_alias("alice").is_none());
}

#[test]
fn window_descriptions() {
    let alice = Identity::generate().id();
    let mut p = Policy::default();
    assert_eq!(p.window(&alice, "app").describe(), "-");
    p.add_seed(&format!("{}/app", alice.to_string()), Mode::Last(3)).unwrap();
    assert_eq!(p.window(&alice, "app").describe(), "last:3");
    p.add_pin(&format!("{}/app:0.1", alice.to_string())).unwrap();
    assert_eq!(p.window(&alice, "app").describe(), "last:3+1 tag(s)");
    p.add_follow(&alice, Mode::Full);
    assert_eq!(p.window(&alice, "app").describe(), "full+1 tag(s)");
}

#[test]
fn default_mode_is_left_out() {
    assert!(is_default_mode(&Mode::Latest));
    assert!(!is_default_mode(&Mode::Last(2)));
    assert!(!is_default_mode(&Mode::Full));
}

#[test]
fn window_select_lists_tags_in_order() {
    let w = Window { full: false, last: 2, tags: vec!["zz".to_string(), "1.0".to_string()] };
    let known = [("3.0", 30), ("2.0", 20), ("1.0", 10), ("3.0", 5)];
    assert_eq!(w.select(&known), ["1.0", "2.0", "3.0", "zz"].map(String::from).to_vec());
    let all = Window { full: true, last: 0, tags: vec![] };
    assert_eq!(all.select(&[("b", 1), ("a", 2), ("b", 3)]), ["a", "b"].map(String::from).to_vec());
}

#[test]
fn publishers_are_listed_once_in_key_order() {
    let mut ids: Vec<_> = (1u8..=4).map(|s| Identity::from_secret_bytes(&[s; 32]).id()).collect();
    let p = Policy {
        seed: vec![SeedEntry { reference: format!("{}/app", ids[2].to_string()), mode: Mode::default() }],
        follow: vec![
            FollowEntry { publisher: ids[0].to_string(), mode: Mode::default() },
            FollowEntry { publisher: ids[2].to_string(), mode: Mode::Full },
        ],
        pin: vec![format!("{}/db:1", ids[3].to_string()), format!("{}/db:2", ids[1].to_string())],
        alias: vec![],
    };
    ids.sort_by_key(|k| k.to_string());
    assert_eq!(p.publishers(), ids);
}

#[test]
fn mode_texts_read_as_documented() {
    assert_eq!("all".parse::<Mode>(), Ok(Mode::Full));
    assert_eq!(" last=3 ".parse::<Mode>(), Ok(Mode::Last(3)));
    assert_eq!("last:1".parse::<Mode>(), Ok(Mode::Latest));
    for m in [Mode::Full, Mode::Latest, Mode::Last(2), Mode::Last(9)] {
        assert_eq!(m.to_string().parse::<Mode>(), Ok(m));
    }
}

#[test]
fn aliases_stay_a_map() {
    let a = Identity::from_secret_bytes(&[1; 32]).id().to_string();
    let b = Identity::from_secret_bytes(&[2; 32]).id().to_string();
    let mut p = Policy::default();
    p.set_alias("one", &a).unwrap();
    p.set_alias("two", &format!("{b}/web")).unwrap();
    p.set_alias("one", &b).unwrap();
    assert_eq!(p.alias.len(), 2);
    assert!(p.remove_alias("one"));
    assert!(p.resolve_alias("one").is_none());
    assert!(p.resolve_alias("two").is_some());
    assert!(!p.remove_alias("one"));
    assert_eq!(p.alias.len(), 1);
}

#[test]
fn window_counts_each_tag_once() {
    let w = Window { full: false, last: 3, tags: vec![] };
    assert_eq!(w.select(&[("a", 5), ("b", 4), ("a", 3), ("c", 2)]), ["a", "b", "c"].map(String::from).to_vec());
    let w = Window { full: false, last: 2, tags: vec![] };
    assert_eq!(w.select(&[("c", 2), ("a", 3), ("b", 4), ("a", 5)]), ["a", "b"].map(String::from).to_vec());
    let empty = Window { full: false, last: 0, tags: vec![] };
    assert!(empty.is_empty());
    assert!(empty.select(&[("a", 1)]).is_empty());
}

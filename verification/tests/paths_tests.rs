use ocid_core::error::Error;
use ocid_core::paths::{join_path, Paths};

#[test]
fn node_layout() {
    let p = Paths { home: "/home/u/.ocid".to_string() };
    assert_eq!(p.secret_key(), "/home/u/.ocid/secret.key");
    assert_eq!(p.config(), "/home/u/.ocid/config.toml");
    assert_eq!(p.policy(), "/home/u/.ocid/policy.toml");
    assert_eq!(p.peers(), "/home/u/.ocid/peers.json");
    assert_eq!(p.blobs(), "/home/u/.ocid/blobs");
    assert_eq!(p.index(), "/home/u/.ocid/index");
    assert_eq!(p.digests(), "/home/u/.ocid/index/digests");
    assert_eq!(p.releases(), "/home/u/.ocid/index/releases");
    assert_eq!(p.uploads(), "/home/u/.ocid/uploads");
    assert_eq!(p.dirs().len(), 5);
}

#[test]
fn joins_like_paths() {
    assert_eq!(join_path("a", "b"), "a/b");
    assert_eq!(join_path("a/", "b"), "a/b");
    assert_eq!(join_path("", "b"), "b");
    assert_eq!(join_path("a", "/b"), "/b");
}

#[test]
fn home_resolution() {
    let explicit = Paths::resolve(Some("/x".into()), Some("/y".into()), Some("/z".into())).unwrap();
    assert_eq!(explicit.home, "/x");
    let env = Paths::resolve(None, Some("/y".into()), Some("/z".into())).unwrap();
    assert_eq!(env.home, "/y");
    let empty_env = Paths::resolve(None, Some(String::new()), Some("/z".into())).unwrap();
    assert_eq!(empty_env.home, "/z/.ocid");
    let user = Paths::from_env(None, Some("/home/u".into())).unwrap();
    assert_eq!(user.home, "/home/u/.ocid");
    assert_eq!(Paths::resolve(None, None, None).map(|p| p.home), Err(Error::NoHome));
}

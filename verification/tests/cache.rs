// The directive cache: upsert, remove and snapshot behaviour.

use secret_sync::cache::DirectiveCache;
use secret_sync::crds::{SecretTarget, SyncSecret, SyncSecretSpec};

fn directive(name: &str, uid: &str, src_name: &str, src_ns: &str, dests: &[&str]) -> SyncSecret {
    SyncSecret {
        name: name.to_owned(),
        uid: uid.to_owned(),
        spec: SyncSecretSpec {
            secret: SecretTarget { name: src_name.to_owned(), namespace: src_ns.to_owned() },
            destination_namespaces: dests.iter().map(|d| (*d).to_owned()).collect(),
        },
    }
}

#[test]
fn snapshot_of_empty_cache_is_empty() {
    let cache = DirectiveCache::new();
    assert_eq!(cache.snapshot().len(), 0);
}

#[test]
fn upsert_adds_a_directive() {
    let mut cache = DirectiveCache::new();
    cache.upsert(directive("sync", "u1", "db-creds", "prod", &["staging"]));
    let snap = cache.snapshot();
    assert_eq!(snap.len(), 1);
    assert_eq!(snap[0].name, "sync");
    assert_eq!(snap[0].spec.secret.name, "db-creds");
}

#[test]
fn upsert_replaces_by_name() {
    let mut cache = DirectiveCache::new();
    cache.upsert(directive("sync", "u1", "db-creds", "prod", &["staging"]));
    cache.upsert(directive("sync", "u2", "db-creds", "prod", &["qa"]));
    let snap = cache.snapshot();
    assert_eq!(snap.len(), 1);
    assert_eq!(snap[0].uid, "u2");
    assert_eq!(snap[0].spec.destination_namespaces, vec!["qa".to_owned()]);
}

#[test]
fn upsert_keeps_other_names() {
    let mut cache = DirectiveCache::new();
    cache.upsert(directive("sync-a", "u1", "db-creds", "prod", &["staging"]));
    cache.upsert(directive("sync-b", "u2", "api-creds", "prod", &["qa"]));
    assert_eq!(cache.snapshot().len(), 2);
}

#[test]
fn remove_deletes_by_name() {
    let mut cache = DirectiveCache::new();
    cache.upsert(directive("sync-a", "u1", "db-creds", "prod", &["staging"]));
    cache.upsert(directive("sync-b", "u2", "api-creds", "prod", &["qa"]));
    cache.remove(&"sync-a".to_owned());
    let snap = cache.snapshot();
    assert_eq!(snap.len(), 1);
    assert_eq!(snap[0].name, "sync-b");
}

#[test]
fn replace_all_swaps_content_wholesale() {
    let mut cache = DirectiveCache::new();
    cache.upsert(directive("old", "u0", "x", "y", &[]));
    cache.replace_all(vec![
        directive("sync-a", "u1", "db-creds", "prod", &["staging"]),
        directive("sync-b", "u2", "api-creds", "prod", &["qa"]),
    ]);
    let snap = cache.snapshot();
    assert_eq!(snap.len(), 2);
    assert!(snap.iter().all(|d| d.name != "old"));
}

#[test]
fn replace_all_later_duplicate_wins() {
    let mut cache = DirectiveCache::new();
    cache.replace_all(vec![
        directive("sync", "u1", "db-creds", "prod", &["staging"]),
        directive("sync", "u2", "db-creds", "prod", &["qa"]),
    ]);
    let snap = cache.snapshot();
    assert_eq!(snap.len(), 1);
    assert_eq!(snap[0].uid, "u2");
}

#[test]
fn remove_of_absent_name_changes_nothing() {
    let mut cache = DirectiveCache::new();
    cache.upsert(directive("sync-a", "u1", "db-creds", "prod", &["staging"]));
    cache.remove(&"sync-b".to_owned());
    assert_eq!(cache.snapshot().len(), 1);
}

// The reconciliation scenarios: convergence, out-of-order directive creation,
// update propagation, cascading deletion, idempotence and isolation, run
// against the modelled cluster state.

use secret_sync::cache::DirectiveCache;
use secret_sync::cluster::ClusterSecrets;
use secret_sync::crds::{SecretTarget, SyncSecret, SyncSecretSpec};
use secret_sync::engine::{apply_directive_event, handle_secret_event, DirectiveEvent};
use secret_sync::secret::{DataEntry, Secret};

fn directive(name: &str, uid: &str, src_name: &str, src_ns: &str, dests: &[&str]) -> SyncSecret {
    SyncSecret {
        name: name.to_owned(),
        uid: uid.to_owned(),
        spec: SyncSecretSpec {
            secret: SecretTarget { name: src_name.to_owned(), namespace: src_ns.to_owned() },
            destination_namespaces: dests.iter().map(|d| (*d).to_owned()).collect(),
        },
    }
}

fn secret(name: &str, namespace: Option<&str>, data: &[(&str, &[u8])]) -> Secret {
    Secret {
        name: name.to_owned(),
        namespace: namespace.map(|n| n.to_owned()),
        data: data
            .iter()
            .map(|(k, v)| DataEntry { key: (*k).to_owned(), value: v.to_vec() })
            .collect(),
        string_data: Vec::new(),
        type_: None,
        immutable: None,
    }
}

#[test]
fn end_to_end_replication_and_cascade() {
    let mut cache = DirectiveCache::new();
    let mut cluster = ClusterSecrets::new();

    apply_directive_event(
        &mut cache,
        DirectiveEvent::Applied(directive("sync", "uid-1", "db-creds", "prod", &["staging", "qa"])),
    );
    let s = secret("db-creds", Some("prod"), &[("password", b"abc123")]);
    let writes = handle_secret_event(&cache, &s);
    cluster.apply_batch(&writes);

    for ns in ["staging", "qa"] {
        let stored = cluster.get(&ns.to_owned(), &"db-creds".to_owned());
        let stored = stored.expect("replica must exist");
        assert_eq!(stored.data.len(), 1);
        assert_eq!(stored.data[0].key, "password");
        assert_eq!(stored.data[0].value, b"abc123".to_vec());
        assert_eq!(stored.owner.uid, "uid-1");
        assert_eq!(stored.source_namespace, "prod");
    }
    assert_eq!(cluster.len(), 2);

    // Deleting the directive: the garbage collector cascades over the owner
    // references the controller stamped on both replicas.
    cluster.cascade_delete(&"uid-1".to_owned());
    assert!(cluster.get(&"staging".to_owned(), &"db-creds".to_owned()).is_none());
    assert!(cluster.get(&"qa".to_owned(), &"db-creds".to_owned()).is_none());
    assert_eq!(cluster.len(), 0);
}

#[test]
fn out_of_order_creation_converges_after_restart() {
    let mut cache = DirectiveCache::new();
    let mut cluster = ClusterSecrets::new();
    let s = secret("db-creds", Some("prod"), &[("password", b"abc123")]);

    // The secret is applied first, with no directive in sight: no writes.
    let writes = handle_secret_event(&cache, &s);
    assert_eq!(writes.len(), 0);
    cluster.apply_batch(&writes);
    assert_eq!(cluster.len(), 0);

    // The directive arrives afterwards; the wake-up signal restarts the
    // secret feed, whose initial list surfaces the same secret once more.
    apply_directive_event(
        &mut cache,
        DirectiveEvent::Applied(directive("sync", "uid-1", "db-creds", "prod", &["staging"])),
    );
    let writes = handle_secret_event(&cache, &s);
    cluster.apply_batch(&writes);
    let stored = cluster.get(&"staging".to_owned(), &"db-creds".to_owned());
    assert_eq!(stored.expect("replica must exist").data[0].value, b"abc123".to_vec());
}

#[test]
fn update_propagates_to_every_replica() {
    let mut cache = DirectiveCache::new();
    let mut cluster = ClusterSecrets::new();
    apply_directive_event(
        &mut cache,
        DirectiveEvent::Applied(directive("sync", "uid-1", "db-creds", "prod", &["staging", "qa"])),
    );

    let writes = handle_secret_event(&cache, &secret("db-creds", Some("prod"), &[("password", b"abc123")]));
    cluster.apply_batch(&writes);

    let writes = handle_secret_event(&cache, &secret("db-creds", Some("prod"), &[("password", b"new-one")]));
    cluster.apply_batch(&writes);

    for ns in ["staging", "qa"] {
        let stored = cluster.get(&ns.to_owned(), &"db-creds".to_owned());
        assert_eq!(stored.expect("replica must exist").data[0].value, b"new-one".to_vec());
    }
    assert_eq!(cluster.len(), 2);
}

#[test]
fn repeated_event_is_a_no_op() {
    let mut cache = DirectiveCache::new();
    let mut cluster = ClusterSecrets::new();
    apply_directive_event(
        &mut cache,
        DirectiveEvent::Applied(directive("sync", "uid-1", "db-creds", "prod", &["staging"])),
    );
    let s = secret("db-creds", Some("prod"), &[("password", b"abc123")]);

    let writes = handle_secret_event(&cache, &s);
    cluster.apply_batch(&writes);
    let len_once = cluster.len();
    let stored_once = cluster
        .get(&"staging".to_owned(), &"db-creds".to_owned())
        .expect("replica must exist")
        .data[0]
        .value
        .clone();

    // The same applied event arrives again (the feed does not deduplicate).
    let writes = handle_secret_event(&cache, &s);
    cluster.apply_batch(&writes);
    assert_eq!(cluster.len(), len_once);
    let stored_twice = cluster
        .get(&"staging".to_owned(), &"db-creds".to_owned())
        .expect("replica must exist")
        .data[0]
        .value
        .clone();
    assert_eq!(stored_once, stored_twice);
}

#[test]
fn unmatched_secret_writes_nowhere() {
    let mut cache = DirectiveCache::new();
    let mut cluster = ClusterSecrets::new();
    apply_directive_event(
        &mut cache,
        DirectiveEvent::Applied(directive("sync", "uid-1", "db-creds", "prod", &["staging"])),
    );

    let writes = handle_secret_event(&cache, &secret("unrelated", Some("prod"), &[("k", b"v")]));
    assert_eq!(writes.len(), 0);
    cluster.apply_batch(&writes);
    assert_eq!(cluster.len(), 0);
}

#[test]
fn removed_directive_plans_no_further_writes() {
    let mut cache = DirectiveCache::new();
    apply_directive_event(
        &mut cache,
        DirectiveEvent::Applied(directive("sync", "uid-1", "db-creds", "prod", &["staging"])),
    );
    apply_directive_event(&mut cache, DirectiveEvent::Removed("sync".to_owned()));

    let writes = handle_secret_event(&cache, &secret("db-creds", Some("prod"), &[]));
    assert_eq!(writes.len(), 0);
}

#[test]
fn cascade_leaves_other_owners_alone() {
    let mut cache = DirectiveCache::new();
    let mut cluster = ClusterSecrets::new();
    apply_directive_event(
        &mut cache,
        DirectiveEvent::Applied(directive("sync-a", "uid-1", "db-creds", "prod", &["staging"])),
    );
    apply_directive_event(
        &mut cache,
        DirectiveEvent::Applied(directive("sync-b", "uid-2", "api-creds", "prod", &["qa"])),
    );

    let writes = handle_secret_event(&cache, &secret("db-creds", Some("prod"), &[]));
    cluster.apply_batch(&writes);
    let writes = handle_secret_event(&cache, &secret("api-creds", Some("prod"), &[]));
    cluster.apply_batch(&writes);
    assert_eq!(cluster.len(), 2);

    cluster.cascade_delete(&"uid-1".to_owned());
    assert!(cluster.get(&"staging".to_owned(), &"db-creds".to_owned()).is_none());
    assert!(cluster.get(&"qa".to_owned(), &"api-creds".to_owned()).is_some());
    assert_eq!(cluster.len(), 1);
}

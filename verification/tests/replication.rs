// Matching and replica construction, checked on concrete values.

use secret_sync::crds::{SecretTarget, SyncSecret, SyncSecretSpec};
use secret_sync::replicate::{build_replica, process_match, plan_replication, secret_matches};
use secret_sync::secret::{DataEntry, Secret, StringDataEntry};

fn directive(name: &str, uid: &str, src_name: &str, src_ns: &str, dests: &[&str]) -> SyncSecret {
    SyncSecret {
        name: name.to_owned(),
        uid: uid.to_owned(),
        spec: SyncSecretSpec {
            secret: SecretTarget { name: src_name.to_owned(), namespace: src_ns.to_owned() },
            destination_namespaces: dests.iter().map(|d| (*d).to_owned()).collect(),
        },
    }
}

fn secret(name: &str, namespace: Option<&str>, data: &[(&str, &[u8])]) -> Secret {
    Secret {
        name: name.to_owned(),
        namespace: namespace.map(|n| n.to_owned()),
        data: data
            .iter()
            .map(|(k, v)| DataEntry { key: (*k).to_owned(), value: v.to_vec() })
            .collect(),
        string_data: Vec::new(),
        type_: None,
        immutable: None,
    }
}

#[test]
fn matches_on_name_and_namespace() {
    let d = directive("sync", "u1", "db-creds", "prod", &["staging"]);
    let s = secret("db-creds", Some("prod"), &[]);
    assert!(secret_matches(&d, &s));
}

#[test]
fn no_match_on_other_name() {
    let d = directive("sync", "u1", "db-creds", "prod", &["staging"]);
    let s = secret("api-creds", Some("prod"), &[]);
    assert!(!secret_matches(&d, &s));
}

#[test]
fn no_match_on_other_namespace() {
    let d = directive("sync", "u1", "db-creds", "prod", &["staging"]);
    let s = secret("db-creds", Some("dev"), &[]);
    assert!(!secret_matches(&d, &s));
}

#[test]
fn no_match_without_namespace() {
    let d = directive("sync", "u1", "db-creds", "prod", &["staging"]);
    let s = secret("db-creds", None, &[]);
    assert!(!secret_matches(&d, &s));
}

#[test]
fn replica_carries_identity_payload_and_owner() {
    let d = directive("sync", "uid-7", "db-creds", "prod", &["staging"]);
    let mut s = secret("db-creds", Some("prod"), &[("password", b"abc123")]);
    s.string_data.push(StringDataEntry { key: "user".to_owned(), value: "admin".to_owned() });
    s.type_ = Some("Opaque".to_owned());
    s.immutable = Some(true);

    let w = build_replica(&d, &s, &"staging".to_owned());
    assert_eq!(w.name, "db-creds");
    assert_eq!(w.namespace, "staging");
    assert_eq!(w.source_namespace, "prod");
    assert_eq!(w.owner.kind, "SyncSecret");
    assert_eq!(w.owner.name, "sync");
    assert_eq!(w.owner.uid, "uid-7");
    assert_eq!(w.data.len(), 1);
    assert_eq!(w.data[0].key, "password");
    assert_eq!(w.data[0].value, b"abc123".to_vec());
    assert_eq!(w.string_data.len(), 1);
    assert_eq!(w.string_data[0].key, "user");
    assert_eq!(w.string_data[0].value, "admin");
    assert_eq!(w.type_, Some("Opaque".to_owned()));
    assert_eq!(w.immutable, Some(true));
}

#[test]
fn process_match_writes_every_destination() {
    let d = directive("sync", "u1", "db-creds", "prod", &["staging", "qa"]);
    let s = secret("db-creds", Some("prod"), &[("password", b"abc123")]);
    let ws = process_match(&d, &s);
    assert_eq!(ws.len(), 2);
    assert_eq!(ws[0].namespace, "staging");
    assert_eq!(ws[1].namespace, "qa");
    assert_eq!(ws[0].name, "db-creds");
    assert_eq!(ws[1].name, "db-creds");
    assert_eq!(ws[0].data[0].value, b"abc123".to_vec());
    assert_eq!(ws[1].data[0].value, b"abc123".to_vec());
}

#[test]
fn process_match_repeats_duplicate_destination() {
    let d = directive("sync", "u1", "db-creds", "prod", &["staging", "staging"]);
    let s = secret("db-creds", Some("prod"), &[]);
    let ws = process_match(&d, &s);
    assert_eq!(ws.len(), 2);
    assert_eq!(ws[0].namespace, "staging");
    assert_eq!(ws[1].namespace, "staging");
}

#[test]
fn process_match_empty_destinations() {
    let d = directive("sync", "u1", "db-creds", "prod", &[]);
    let s = secret("db-creds", Some("prod"), &[]);
    let ws = process_match(&d, &s);
    assert_eq!(ws.len(), 0);
}

#[test]
fn process_match_unmatched_secret_plans_nothing() {
    let d = directive("sync", "u1", "db-creds", "prod", &["staging"]);
    let s = secret("other", Some("prod"), &[]);
    let ws = process_match(&d, &s);
    assert_eq!(ws.len(), 0);
}

#[test]
fn plan_covers_only_matching_directives() {
    let d1 = directive("sync-a", "u1", "db-creds", "prod", &["staging"]);
    let d2 = directive("sync-b", "u2", "api-creds", "prod", &["qa"]);
    let snapshot = vec![d1, d2];
    let s = secret("db-creds", Some("prod"), &[]);
    let ws = plan_replication(&snapshot, &s);
    assert_eq!(ws.len(), 1);
    assert_eq!(ws[0].namespace, "staging");
    assert_eq!(ws[0].owner.uid, "u1");
}

#[test]
fn two_directives_same_source_both_replicate() {
    let d1 = directive("sync-a", "u1", "db-creds", "prod", &["staging"]);
    let d2 = directive("sync-b", "u2", "db-creds", "prod", &["qa"]);
    let snapshot = vec![d1, d2];
    let s = secret("db-creds", Some("prod"), &[]);
    let ws = plan_replication(&snapshot, &s);
    assert_eq!(ws.len(), 2);
    assert_eq!(ws[0].namespace, "staging");
    assert_eq!(ws[1].namespace, "qa");
}

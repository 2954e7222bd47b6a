//! The replication directive objects and their mathematical models.

use vstd::prelude::*;

verus! {

/// Identity of the one source secret a directive replicates.
pub struct SecretTarget {
    pub name: String,
    pub namespace: String,
}

/// Model of a [`SecretTarget`]: both components as character sequences.
pub struct SecretTargetView {
    pub name: Seq<char>,
    pub namespace: Seq<char>,
}

impl View for SecretTarget {
    type V = SecretTargetView;

    open spec fn view(&self) -> SecretTargetView {
        SecretTargetView { name: self.name@, namespace: self.namespace@ }
    }
}

impl DeepView for SecretTarget {
    type V = SecretTargetView;

    open spec fn deep_view(&self) -> SecretTargetView {
        self.view()
    }
}

/// What a directive asks for: replicate the source secret into each of the
/// destination namespaces. Duplicate destinations are tolerated; a repeated
/// namespace only repeats an idempotent write.
pub struct SyncSecretSpec {
    pub secret: SecretTarget,
    pub destination_namespaces: Vec<String>,
}

/// Model of a [`SyncSecretSpec`].
pub struct SyncSecretSpecView {
    pub secret: SecretTargetView,
    pub destination_namespaces: Seq<Seq<char>>,
}

impl View for SyncSecretSpec {
    type V = SyncSecretSpecView;

    open spec fn view(&self) -> SyncSecretSpecView {
        SyncSecretSpecView {
            secret: self.secret@,
            destination_namespaces: self.destination_namespaces.deep_view(),
        }
    }
}

impl DeepView for SyncSecretSpec {
    type V = SyncSecretSpecView;

    open spec fn deep_view(&self) -> SyncSecretSpecView {
        self.view()
    }
}

/// One directive object as the controller sees it: its cluster identity
/// (`name` within the directive collection, the unique `uid` the cluster
/// assigned to this incarnation of the object) and its spec.
pub struct SyncSecret {
    pub name: String,
    pub uid: String,
    pub spec: SyncSecretSpec,
}

/// Model of a [`SyncSecret`].
pub struct SyncSecretView {
    pub name: Seq<char>,
    pub uid: Seq<char>,
    pub spec: SyncSecretSpecView,
}

impl View for SyncSecret {
    type V = SyncSecretView;

    open spec fn view(&self) -> SyncSecretView {
        SyncSecretView { name: self.name@, uid: self.uid@, spec: self.spec@ }
    }
}

impl DeepView for SyncSecret {
    type V = SyncSecretView;

    open spec fn deep_view(&self) -> SyncSecretView {
        self.view()
    }
}

} // verus!

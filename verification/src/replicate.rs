//! Matching a secret against a directive, and the replication writes a match
//! calls for.

use vstd::prelude::*;
use crate::crds::{SyncSecret, SyncSecretView};
use crate::secret::{
    clone_data, clone_opt_string, clone_string_data, DataEntry, PayloadView, Secret, SecretView,
    StringDataEntry,
};

verus! {

/// The kind recorded in every owner reference this controller writes.
pub open spec fn directive_kind() -> Seq<char> {
    "SyncSecret"@
}

/// Builds the owner-reference kind as a `String`.
pub fn directive_kind_string() -> (r: String)
    ensures
        r@ == directive_kind(),
{
    "SyncSecret".to_owned()
}

/// The weak back-link from a replica to the directive that caused it. The
/// cluster's garbage collector follows it to cascade-delete the replica when
/// the directive is deleted.
pub struct OwnerRef {
    pub kind: String,
    pub name: String,
    pub uid: String,
}

/// Model of an [`OwnerRef`].
pub struct OwnerRefView {
    pub kind: Seq<char>,
    pub name: Seq<char>,
    pub uid: Seq<char>,
}

impl View for OwnerRef {
    type V = OwnerRefView;

    open spec fn view(&self) -> OwnerRefView {
        OwnerRefView { kind: self.kind@, name: self.name@, uid: self.uid@ }
    }
}

impl DeepView for OwnerRef {
    type V = OwnerRefView;

    open spec fn deep_view(&self) -> OwnerRefView {
        self.view()
    }
}

/// One replication write: the secret object to apply into a destination
/// namespace. Its name is the source secret's name, its payload is the source
/// payload verbatim, it is labelled with the source namespace, and it carries
/// an owner reference to the directive.
pub struct ReplicaSecret {
    pub name: String,
    pub namespace: String,
    pub source_namespace: String,
    pub owner: OwnerRef,
    pub data: Vec<DataEntry>,
    pub string_data: Vec<StringDataEntry>,
    pub type_: Option<String>,
    pub immutable: Option<bool>,
}

/// Model of a [`ReplicaSecret`].
pub struct ReplicaSecretView {
    pub name: Seq<char>,
    pub namespace: Seq<char>,
    pub source_namespace: Seq<char>,
    pub owner: OwnerRefView,
    pub data: Seq<crate::secret::DataEntryView>,
    pub string_data: Seq<crate::secret::StringDataEntryView>,
    pub type_: Option<Seq<char>>,
    pub immutable: Option<bool>,
}

impl View for ReplicaSecret {
    type V = ReplicaSecretView;

    open spec fn view(&self) -> ReplicaSecretView {
        ReplicaSecretView {
            name: self.name@,
            namespace: self.namespace@,
            source_namespace: self.source_namespace@,
            owner: self.owner@,
            data: self.data.deep_view(),
            string_data: self.string_data.deep_view(),
            type_: self.type_.deep_view(),
            immutable: self.immutable,
        }
    }
}

impl DeepView for ReplicaSecret {
    type V = ReplicaSecretView;

    open spec fn deep_view(&self) -> ReplicaSecretView {
        self.view()
    }
}

impl ReplicaSecretView {
    /// The payload this write carries.
    pub open spec fn payload(self) -> PayloadView {
        PayloadView {
            data: self.data,
            string_data: self.string_data,
            type_: self.type_,
            immutable: self.immutable,
        }
    }
}

/// Does the directive's source selector pick out this secret? It does exactly
/// when the secret's name and namespace both equal the selector's; a secret
/// without a namespace is never selected.
pub open spec fn directive_matches(d: SyncSecretView, s: SecretView) -> bool {
    &&& s.name == d.spec.secret.name
    &&& s.namespace == Some(d.spec.secret.namespace)
}

/// The replica that a match of directive `d` on secret `s` writes into the
/// destination namespace `dest`.
pub open spec fn replica_of(d: SyncSecretView, s: SecretView, dest: Seq<char>) -> ReplicaSecretView {
    ReplicaSecretView {
        name: s.name,
        namespace: dest,
        source_namespace: d.spec.secret.namespace,
        owner: OwnerRefView { kind: directive_kind(), name: d.name, uid: d.uid },
        data: s.data,
        string_data: s.string_data,
        type_: s.type_,
        immutable: s.immutable,
    }
}

/// All writes one directive plans for one applied secret event: one replica
/// per destination namespace if the directive selects the secret, none
/// otherwise.
pub open spec fn directive_writes(d: SyncSecretView, s: SecretView) -> Seq<ReplicaSecretView> {
    if directive_matches(d, s) {
        Seq::new(
            d.spec.destination_namespaces.len(),
            |i: int| replica_of(d, s, d.spec.destination_namespaces[i]),
        )
    } else {
        Seq::empty()
    }
}

/// All writes a snapshot of the directive cache plans for one applied secret
/// event: the writes of each directive in the snapshot, in snapshot order.
pub open spec fn plan_of(snap: Seq<SyncSecretView>, s: SecretView) -> Seq<ReplicaSecretView>
    decreases snap.len(),
{
    if snap.len() == 0 {
        Seq::empty()
    } else {
        plan_of(snap.drop_last(), s) + directive_writes(snap.last(), s)
    }
}

/// Did some directive of `snap` that matches `s` plan the write `w` for one of
/// its destination namespaces?
pub open spec fn write_from(snap: Seq<SyncSecretView>, s: SecretView, w: ReplicaSecretView) -> bool {
    exists|i: int, j: int|
        0 <= i < snap.len() && directive_matches(snap[i], s) && 0 <= j
            < snap[i].spec.destination_namespaces.len() && w == #[trigger] replica_of(
            snap[i],
            s,
            snap[i].spec.destination_namespaces[j],
        )
}

/// Every destination of every matching directive in the snapshot gets its
/// replica planned.
pub proof fn lemma_plan_covers(snap: Seq<SyncSecretView>, s: SecretView, i: int, j: int)
    requires
        0 <= i < snap.len(),
        directive_matches(snap[i], s),
        0 <= j < snap[i].spec.destination_namespaces.len(),
    ensures
        plan_of(snap, s).contains(replica_of(snap[i], s, snap[i].spec.destination_namespaces[j])),
    decreases snap.len(),
{
    let w = replica_of(snap[i], s, snap[i].spec.destination_namespaces[j]);
    let p = plan_of(snap.drop_last(), s);
    let dw = directive_writes(snap.last(), s);
    if i == snap.len() - 1 {
        assert(dw[j] == w);
        assert(plan_of(snap, s)[p.len() + j] == w);
    } else {
        assert(snap.drop_last()[i] == snap[i]);
        lemma_plan_covers(snap.drop_last(), s, i, j);
        let l = choose|l: int| 0 <= l < p.len() && p[l] == w;
        assert(plan_of(snap, s)[l] == w);
    }
}

/// Every planned write comes from some matching directive in the snapshot.
pub proof fn lemma_plan_sound(snap: Seq<SyncSecretView>, s: SecretView)
    ensures
        forall|l: int|
            0 <= l < plan_of(snap, s).len() ==> write_from(snap, s, #[trigger] plan_of(snap, s)[l]),
    decreases snap.len(),
{
    if snap.len() > 0 {
        lemma_plan_sound(snap.drop_last(), s);
        let p = plan_of(snap.drop_last(), s);
        let dw = directive_writes(snap.last(), s);
        assert forall|l: int|
            0 <= l < plan_of(snap, s).len() implies write_from(snap, s, plan_of(snap, s)[l]) by {
            if l < p.len() {
                assert(plan_of(snap, s)[l] == p[l]);
                assert(write_from(snap.drop_last(), s, p[l]));
                let (i, j) = choose|i: int, j: int|
                    0 <= i < snap.drop_last().len() && directive_matches(snap.drop_last()[i], s)
                        && 0 <= j < snap.drop_last()[i].spec.destination_namespaces.len() && p[l]
                        == #[trigger] replica_of(
                        snap.drop_last()[i],
                        s,
                        snap.drop_last()[i].spec.destination_namespaces[j],
                    );
                assert(snap.drop_last()[i] == snap[i]);
                assert(plan_of(snap, s)[l] == replica_of(
                    snap[i],
                    s,
                    snap[i].spec.destination_namespaces[j],
                ));
            } else {
                let j = l - p.len();
                let i = snap.len() - 1;
                assert(directive_matches(snap[i], s));
                assert(plan_of(snap, s)[l] == dw[j]);
                assert(dw[j] == replica_of(snap[i], s, snap[i].spec.destination_namespaces[j]));
            }
        }
    }
}

/// A secret no directive of the snapshot matches gets no write planned.
pub proof fn lemma_plan_empty(snap: Seq<SyncSecretView>, s: SecretView)
    requires
        forall|i: int| 0 <= i < snap.len() ==> !directive_matches(#[trigger] snap[i], s),
    ensures
        plan_of(snap, s) == Seq::<ReplicaSecretView>::empty(),
    decreases snap.len(),
{
    if snap.len() > 0 {
        assert forall|i: int|
            0 <= i < snap.drop_last().len() implies !directive_matches(
            #[trigger] snap.drop_last()[i],
            s,
        ) by {
            assert(!directive_matches(snap[i], s));
        }
        lemma_plan_empty(snap.drop_last(), s);
        assert(!directive_matches(snap[snap.len() - 1], s));
        assert(plan_of(snap, s) =~= Seq::<ReplicaSecretView>::empty());
    }
}

/// Does the directive's source selector pick out this secret?
pub fn secret_matches(target: &SyncSecret, secret: &Secret) -> (r: bool)
    ensures
        r == directive_matches(target@, secret@),
{
    secret.name == target.spec.secret.name && match &secret.namespace {
        Some(ns) => *ns == target.spec.secret.namespace,
        None => false,
    }
}

/// Constructs the replica of `secret` that `target` asks for in the
/// destination namespace `dest`.
pub fn build_replica(target: &SyncSecret, secret: &Secret, dest: &String) -> (r: ReplicaSecret)
    ensures
        r@ == replica_of(target@, secret@, dest@),
{
    ReplicaSecret {
        name: secret.name.clone(),
        namespace: dest.clone(),
        source_namespace: target.spec.secret.namespace.clone(),
        owner: OwnerRef {
            kind: directive_kind_string(),
            name: target.name.clone(),
            uid: target.uid.clone(),
        },
        data: clone_data(&secret.data),
        string_data: clone_string_data(&secret.string_data),
        type_: clone_opt_string(&secret.type_),
        immutable: secret.immutable,
    }
}

/// Copies one replication write.
pub fn clone_replica(w: &ReplicaSecret) -> (r: ReplicaSecret)
    ensures
        r@ == w@,
{
    ReplicaSecret {
        name: w.name.clone(),
        namespace: w.namespace.clone(),
        source_namespace: w.source_namespace.clone(),
        owner: OwnerRef {
            kind: w.owner.kind.clone(),
            name: w.owner.name.clone(),
            uid: w.owner.uid.clone(),
        },
        data: clone_data(&w.data),
        string_data: clone_string_data(&w.string_data),
        type_: clone_opt_string(&w.type_),
        immutable: w.immutable,
    }
}

/// The writes one directive plans for one applied secret event: if the
/// directive selects the secret, one replica per destination namespace (a
/// repeated namespace repeats an idempotent write); otherwise none.
pub fn process_match(target: &SyncSecret, secret: &Secret) -> (writes: Vec<ReplicaSecret>)
    ensures
        writes.deep_view() == directive_writes(target@, secret@),
{
    let mut writes: Vec<ReplicaSecret> = Vec::new();
    if secret_matches(target, secret) {
        let dests = &target.spec.destination_namespaces;
        let mut i: usize = 0;
        while i < dests.len()
            invariant
                i <= dests.len(),
                writes.len() == i,
                directive_matches(target@, secret@),
                dests == target.spec.destination_namespaces,
                forall|j: int|
                    0 <= j < i ==> writes@[j]@ == replica_of(
                        target@,
                        secret@,
                        target@.spec.destination_namespaces[j],
                    ),
            decreases dests.len() - i,
        {
            let w = build_replica(target, secret, &dests[i]);
            writes.push(w);
            i = i + 1;
        }
    }
    assert(writes.deep_view() =~= directive_writes(target@, secret@));
    writes
}

/// The writes a whole cache snapshot plans for one applied secret event: the
/// writes of every directive in the snapshot, in snapshot order.
pub fn plan_replication(snapshot: &Vec<SyncSecret>, secret: &Secret) -> (writes: Vec<ReplicaSecret>)
    ensures
        writes.deep_view() == plan_of(snapshot.deep_view(), secret@),
{
    let mut writes: Vec<ReplicaSecret> = Vec::new();
    let mut i: usize = 0;
    while i < snapshot.len()
        invariant
            i <= snapshot.len(),
            writes.deep_view() == plan_of(snapshot.deep_view().take(i as int), secret@),
        decreases snapshot.len() - i,
    {
        let mut ws = process_match(&snapshot[i], secret);
        let ghost prefix = writes.deep_view();
        let ghost step = ws.deep_view();
        writes.append(&mut ws);
        proof {
            let dv = snapshot.deep_view();
            assert(dv.take(i + 1).drop_last() =~= dv.take(i as int));
            assert(dv.take(i + 1).last() == dv[i as int]);
            assert(writes.deep_view() =~= prefix + step);
        }
        i = i + 1;
    }
    proof {
        assert(snapshot.deep_view().take(snapshot.len() as int) =~= snapshot.deep_view());
    }
    writes
}

} // verus!

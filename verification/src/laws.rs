//! The replication laws, each proved from the contracts of the planning step
//! and the cluster-state model: convergence, out-of-order directive creation,
//! update propagation, cascading deletion, idempotence and isolation.

use vstd::prelude::*;
use crate::cache::snapshot_of;
use crate::cluster::{
    apply_writes, collect_directive, has_write, lemma_apply_writes_at, lemma_apply_writes_union,
    write_key,
};
use crate::crds::SyncSecretView;
use crate::engine::{event_applied, DirectiveEventView};
use crate::replicate::{
    directive_kind, directive_matches, lemma_plan_covers, lemma_plan_empty, lemma_plan_sound,
    plan_of, replica_of, write_from, OwnerRefView, ReplicaSecretView,
};
use crate::secret::SecretView;

verus! {

/// Every planned write carries the source secret's name and its payload,
/// verbatim.
pub proof fn lemma_plan_writes_carry_source(snap: Seq<SyncSecretView>, s: SecretView)
    ensures
        forall|l: int|
            0 <= l < plan_of(snap, s).len() ==> (#[trigger] plan_of(snap, s)[l]).name == s.name
                && plan_of(snap, s)[l].payload() == s.payload(),
{
    lemma_plan_sound(snap, s);
    assert forall|l: int|
        0 <= l < plan_of(snap, s).len() implies (#[trigger] plan_of(snap, s)[l]).name == s.name
        && plan_of(snap, s)[l].payload() == s.payload() by {
        assert(write_from(snap, s, plan_of(snap, s)[l]));
        let (i, j) = choose|i: int, j: int|
            0 <= i < snap.len() && directive_matches(snap[i], s) && 0 <= j
                < snap[i].spec.destination_namespaces.len() && plan_of(snap, s)[l]
                == #[trigger] replica_of(snap[i], s, snap[i].spec.destination_namespaces[j]);
    }
}

/// Every planned write carries an owner reference naming the directive that
/// planned it; this is what delegates deletion of the replicas to the
/// cluster's garbage collector.
pub proof fn lemma_plan_writes_owned(snap: Seq<SyncSecretView>, s: SecretView)
    ensures
        forall|l: int|
            0 <= l < plan_of(snap, s).len() ==> exists|i: int|
                0 <= i < snap.len() && directive_matches(#[trigger] snap[i], s) && (#[trigger] plan_of(
                    snap,
                    s,
                )[l]).owner == (OwnerRefView {
                    kind: directive_kind(),
                    name: snap[i].name,
                    uid: snap[i].uid,
                }),
{
    lemma_plan_sound(snap, s);
    assert forall|l: int| 0 <= l < plan_of(snap, s).len() implies exists|i: int|
        0 <= i < snap.len() && directive_matches(#[trigger] snap[i], s) && (#[trigger] plan_of(
            snap,
            s,
        )[l]).owner == (OwnerRefView {
            kind: directive_kind(),
            name: snap[i].name,
            uid: snap[i].uid,
        }) by {
        assert(write_from(snap, s, plan_of(snap, s)[l]));
        let (i, j) = choose|i: int, j: int|
            0 <= i < snap.len() && directive_matches(snap[i], s) && 0 <= j
                < snap[i].spec.destination_namespaces.len() && plan_of(snap, s)[l]
                == #[trigger] replica_of(snap[i], s, snap[i].spec.destination_namespaces[j]);
        assert(directive_matches(snap[i], s));
        assert((plan_of(snap, s)[l]).owner == (OwnerRefView {
            kind: directive_kind(),
            name: snap[i].name,
            uid: snap[i].uid,
        }));
    }
}

/// Convergence: processing one applied event for the secret `s` against a
/// snapshot that holds a matching directive leaves, in each of that
/// directive's destination namespaces, a stored secret with the source's name
/// and the source's payload — whatever the destination state held before.
pub proof fn lemma_convergence(
    st: Map<(Seq<char>, Seq<char>), ReplicaSecretView>,
    snap: Seq<SyncSecretView>,
    s: SecretView,
    i: int,
    j: int,
)
    requires
        0 <= i < snap.len(),
        directive_matches(snap[i], s),
        0 <= j < snap[i].spec.destination_namespaces.len(),
    ensures
        ({
            let dest = snap[i].spec.destination_namespaces[j];
            let after = apply_writes(st, plan_of(snap, s));
            &&& after.dom().contains((dest, s.name))
            &&& after[(dest, s.name)].name == s.name
            &&& after[(dest, s.name)].payload() == s.payload()
        }),
{
    let dest = snap[i].spec.destination_namespaces[j];
    let k = (dest, s.name);
    let ws = plan_of(snap, s);
    let w = replica_of(snap[i], s, dest);
    lemma_plan_covers(snap, s, i, j);
    let l = choose|l: int| 0 <= l < ws.len() && ws[l] == w;
    assert(write_key(ws[l]) == k);
    assert(has_write(ws, k));
    lemma_apply_writes_at(st, ws, k);
    lemma_plan_writes_carry_source(snap, s);
    let l2 = choose|l2: int|
        0 <= l2 < ws.len() && write_key(#[trigger] ws[l2]) == k && apply_writes(st, ws)[k] == ws[l2];
    assert(ws[l2].payload() == s.payload());
}

/// Out-of-order creation: a directive applied *after* its source secret
/// already exists still converges. The event puts the directive into the
/// cache under its name; the wake-up signal restarts the secret feed, whose
/// fresh initial list surfaces the existing secret as applied once more; and
/// processing that event against any snapshot of the new cache state fills
/// every destination namespace of the new directive.
pub proof fn lemma_out_of_order_creation(
    st: Map<(Seq<char>, Seq<char>), ReplicaSecretView>,
    m: Map<Seq<char>, SyncSecretView>,
    d: SyncSecretView,
    snap: Seq<SyncSecretView>,
    s: SecretView,
    j: int,
)
    requires
        directive_matches(d, s),
        snapshot_of(snap, event_applied(m, DirectiveEventView::Applied(d))),
        0 <= j < d.spec.destination_namespaces.len(),
    ensures
        ({
            let dest = d.spec.destination_namespaces[j];
            let after = apply_writes(st, plan_of(snap, s));
            &&& after.dom().contains((dest, s.name))
            &&& after[(dest, s.name)].name == s.name
            &&& after[(dest, s.name)].payload() == s.payload()
        }),
{
    let m2 = event_applied(m, DirectiveEventView::Applied(d));
    assert(m2.dom().contains(d.name));
    let i = choose|i: int| 0 <= i < snap.len() && snap[i].name == d.name;
    assert(m2.contains_pair(snap[i].name, snap[i]));
    assert(snap[i] == d);
    lemma_convergence(st, snap, s, i, j);
}

/// Update propagation: once the source secret's payload has changed,
/// processing the applied event for its new incarnation leaves every
/// destination replica of a matching directive with the new payload, whatever
/// the earlier processing of the old incarnation had written.
pub proof fn lemma_update_propagation(
    st: Map<(Seq<char>, Seq<char>), ReplicaSecretView>,
    snap: Seq<SyncSecretView>,
    s_old: SecretView,
    s_new: SecretView,
    i: int,
    j: int,
)
    requires
        0 <= i < snap.len(),
        directive_matches(snap[i], s_new),
        0 <= j < snap[i].spec.destination_namespaces.len(),
    ensures
        ({
            let dest = snap[i].spec.destination_namespaces[j];
            let once = apply_writes(st, plan_of(snap, s_old));
            let after = apply_writes(once, plan_of(snap, s_new));
            &&& after.dom().contains((dest, s_new.name))
            &&& after[(dest, s_new.name)].payload() == s_new.payload()
        }),
{
    lemma_convergence(apply_writes(st, plan_of(snap, s_old)), snap, s_new, i, j);
}

/// Cascading deletion: the writes a directive plans are owned by its uid, and
/// the garbage collector's cascade for a deleted directive removes exactly
/// the stored secrets owned by that uid. So after processing, the matched
/// directive's destination slot is filled; if it holds the directive's own
/// replica the cascade empties it; and in every case no stored secret owned
/// by the deleted directive survives anywhere.
pub proof fn lemma_cascading_deletion(
    st: Map<(Seq<char>, Seq<char>), ReplicaSecretView>,
    snap: Seq<SyncSecretView>,
    s: SecretView,
    i: int,
    j: int,
)
    requires
        0 <= i < snap.len(),
        directive_matches(snap[i], s),
        0 <= j < snap[i].spec.destination_namespaces.len(),
    ensures
        ({
            let dest = snap[i].spec.destination_namespaces[j];
            let k = (dest, s.name);
            let after = apply_writes(st, plan_of(snap, s));
            let collected = collect_directive(after, snap[i].uid);
            &&& after.dom().contains(k)
            &&& after[k].owner.uid == snap[i].uid ==> !collected.dom().contains(k)
            &&& forall|k2: (Seq<char>, Seq<char>)|
                #[trigger] collected.dom().contains(k2) ==> collected[k2].owner.uid != snap[i].uid
        }),
{
    lemma_convergence(st, snap, s, i, j);
}

/// Idempotence: the plan for an applied secret event is a function of the
/// snapshot and the secret alone, and re-applying the same batch of writes is
/// a no-op; so processing the same event twice in a row leaves the
/// destination state of the first processing unchanged.
pub proof fn lemma_idempotence(
    st: Map<(Seq<char>, Seq<char>), ReplicaSecretView>,
    snap: Seq<SyncSecretView>,
    s: SecretView,
)
    ensures
        ({
            let once = apply_writes(st, plan_of(snap, s));
            apply_writes(once, plan_of(snap, s)) == once
        }),
{
    let ws = plan_of(snap, s);
    let empty = Map::<(Seq<char>, Seq<char>), ReplicaSecretView>::empty();
    let once = apply_writes(st, ws);
    lemma_apply_writes_union(st, ws);
    lemma_apply_writes_union(once, ws);
    assert(st.union_prefer_right(apply_writes(empty, ws)).union_prefer_right(
        apply_writes(empty, ws),
    ) =~= st.union_prefer_right(apply_writes(empty, ws)));
}

/// Isolation: a secret no directive of the snapshot matches gets no write
/// planned, and the destination state stays exactly as it was.
pub proof fn lemma_isolation(
    st: Map<(Seq<char>, Seq<char>), ReplicaSecretView>,
    snap: Seq<SyncSecretView>,
    s: SecretView,
)
    requires
        forall|i: int| 0 <= i < snap.len() ==> !directive_matches(#[trigger] snap[i], s),
    ensures
        plan_of(snap, s) == Seq::<ReplicaSecretView>::empty(),
        apply_writes(st, plan_of(snap, s)) == st,
{
    lemma_plan_empty(snap, s);
}

} // verus!

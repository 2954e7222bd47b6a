//! The decision steps of the two watch loops.
//!
//! The directive watch loop applies each directive change event to the object
//! cache through [`apply_directive_event`] and then raises the shared wake-up
//! signal; the secret reconciliation loop answers each applied secret event
//! with the replication writes [`handle_secret_event`] plans from a cache
//! snapshot. Waiting on the feeds, raising the signal and performing the
//! writes are I/O left to the caller.

use vstd::prelude::*;
use crate::cache::{snapshot_of, DirectiveCache};
use crate::crds::{SyncSecret, SyncSecretView};
use crate::replicate::{
    directive_matches, lemma_plan_covers, lemma_plan_sound, plan_replication, replica_of,
    write_from, ReplicaSecret, ReplicaSecretView,
};
use crate::secret::{Secret, SecretView};

verus! {

/// One event of the directive change feed: the named directive now exists in
/// the given state (created or updated, indistinguishable), or no directive of
/// that name exists any more.
pub enum DirectiveEvent {
    Applied(SyncSecret),
    Removed(String),
}

/// Model of a [`DirectiveEvent`].
pub enum DirectiveEventView {
    Applied(SyncSecretView),
    Removed(Seq<char>),
}

impl View for DirectiveEvent {
    type V = DirectiveEventView;

    open spec fn view(&self) -> DirectiveEventView {
        match self {
            DirectiveEvent::Applied(d) => DirectiveEventView::Applied(d@),
            DirectiveEvent::Removed(name) => DirectiveEventView::Removed(name@),
        }
    }
}

/// The cache state that one directive change event leads to.
pub open spec fn event_applied(
    m: Map<Seq<char>, SyncSecretView>,
    event: DirectiveEventView,
) -> Map<Seq<char>, SyncSecretView> {
    match event {
        DirectiveEventView::Applied(d) => m.insert(d.name, d),
        DirectiveEventView::Removed(name) => m.remove(name),
    }
}

/// The directive watch loop's whole decision for one event: bring the cache to
/// the state the event names. The caller raises the wake-up signal after every
/// such call; the signal carries no payload, so no decision about it is made
/// here.
pub fn apply_directive_event(cache: &mut DirectiveCache, event: DirectiveEvent)
    ensures
        final(cache)@ == event_applied(old(cache)@, event@),
{
    match event {
        DirectiveEvent::Applied(d) => cache.upsert(d),
        DirectiveEvent::Removed(name) => cache.remove(&name),
    }
}

/// Did some directive of the cache state `m` that matches `s` ask for the
/// write `w` into one of its destination namespaces?
pub open spec fn write_from_cache(
    m: Map<Seq<char>, SyncSecretView>,
    s: SecretView,
    w: ReplicaSecretView,
) -> bool {
    exists|k: Seq<char>, j: int|
        m.dom().contains(k) && directive_matches(m[k], s) && 0 <= j
            < m[k].spec.destination_namespaces.len() && w == #[trigger] replica_of(
            m[k],
            s,
            m[k].spec.destination_namespaces[j],
        )
}

/// Every destination namespace of every directive in `m` that matches `s` has
/// its replica among the writes `ws`.
pub open spec fn event_writes_complete(
    m: Map<Seq<char>, SyncSecretView>,
    s: SecretView,
    ws: Seq<ReplicaSecretView>,
) -> bool {
    forall|k: Seq<char>, j: int|
        m.dom().contains(k) && directive_matches(m[k], s) && 0 <= j
            < m[k].spec.destination_namespaces.len() ==> ws.contains(
            #[trigger] replica_of(m[k], s, m[k].spec.destination_namespaces[j]),
        )
}

/// Every one of the writes `ws` is asked for by some directive in `m` that
/// matches `s`.
pub open spec fn event_writes_sound(
    m: Map<Seq<char>, SyncSecretView>,
    s: SecretView,
    ws: Seq<ReplicaSecretView>,
) -> bool {
    forall|l: int| 0 <= l < ws.len() ==> write_from_cache(m, s, #[trigger] ws[l])
}

/// The secret reconciliation loop's decision for one applied secret event:
/// read a snapshot of the cache and plan, for every directive that matches the
/// event's secret, the replica write for each of its destination namespaces —
/// all of those, and nothing else.
pub fn handle_secret_event(cache: &DirectiveCache, secret: &Secret) -> (writes: Vec<ReplicaSecret>)
    ensures
        event_writes_complete(cache@, secret@, writes.deep_view()),
        event_writes_sound(cache@, secret@, writes.deep_view()),
{
    let snapshot = cache.snapshot();
    let writes = plan_replication(snapshot, secret);
    proof {
        let snap = snapshot.deep_view();
        let m = cache@;
        let s = secret@;
        let ws = writes.deep_view();
        assert forall|k: Seq<char>, j: int|
            m.dom().contains(k) && directive_matches(m[k], s) && 0 <= j
                < m[k].spec.destination_namespaces.len() implies ws.contains(
            #[trigger] replica_of(m[k], s, m[k].spec.destination_namespaces[j]),
        ) by {
            let i = choose|i: int| 0 <= i < snap.len() && snap[i].name == k;
            assert(m.contains_pair(snap[i].name, snap[i]));
            assert(snap[i] == m[k]);
            lemma_plan_covers(snap, s, i, j);
        }
        assert forall|l: int| 0 <= l < ws.len() implies write_from_cache(m, s, ws[l]) by {
            lemma_plan_sound(snap, s);
            assert(write_from(snap, s, ws[l]));
            let (i, j) = choose|i: int, j: int|
                0 <= i < snap.len() && directive_matches(snap[i], s) && 0 <= j
                    < snap[i].spec.destination_namespaces.len() && ws[l] == #[trigger] replica_of(
                    snap[i],
                    s,
                    snap[i].spec.destination_namespaces[j],
                );
            let k = snap[i].name;
            assert(m.contains_pair(snap[i].name, snap[i]));
            assert(m.dom().contains(k) && m[k] == snap[i]);
            assert(ws[l] == replica_of(m[k], s, m[k].spec.destination_namespaces[j]));
        }
    }
    writes
}

} // verus!
